//! Construction of a small Unix file-system image: boot block, superblock, log,
//! inode table, free-block bitmap and data blocks, in that order.
//!
//! The image is built in memory, sector by sector. Every operation is specified
//! as a function on the abstract image ([`image::ImageView`]). What these
//! functions mean for the files in the image is proved in [`append`],
//! [`stopped`], [`placed`], [`parts`] and [`create`], over the notion of a sound
//! image in [`sound`]; what a whole image holds is proved in [`complete`].

pub mod layout;
pub mod bytes;
pub mod inode;
pub mod dirent;
pub mod image;
pub mod sound;
pub mod append;
pub mod parts;
pub mod stopped;
pub mod placed;
pub mod create;
pub mod make;
pub mod complete;
