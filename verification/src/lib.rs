//! A verified model of a hard-link based package manager in the GNU Stow
//! style: packages (subdirectories of a source root) are merged into a
//! destination tree by hard-linking every regular file, with per-file
//! conflicts resolved by a configurable policy (skip, force-overwrite, or
//! interactive confirmation) and files that are already correctly linked
//! recognised idempotently.
//!
//! The linking engine works over an explicit filesystem model ([`fsmodel::Fs`])
//! in which paths are sequences of raw name components and regular files carry
//! an identity standing for their device/inode pair.  Every decision the real
//! program makes — which packages to process, how to rebase a file onto the
//! destination, when a destination is already linked, what a conflict policy
//! does — is made by the verified functions here; the binary around the
//! library only performs the corresponding filesystem calls.

pub mod choices;
pub mod engine;
pub mod fsmodel;
pub mod laws;
pub mod paths;
pub mod perms;
pub mod run;
pub mod walk;
