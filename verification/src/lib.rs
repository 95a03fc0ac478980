//! Verified core of the E-OS base system daemons and drivers.
//!
//! - `init`: legacy init scripts, unit files, the unit store and loading of
//!   a unit with its weak dependencies, and the scheduler;
//! - `raid1`: the RAID-1 mirror daemon's superblock, assembly and the
//!   bookkeeping of reads and writes;
//! - `shm`: the shared-memory scheme and the memory of its objects;
//! - `pty`: the control resources of the pseudo-terminal scheme;
//! - `console_draw`: the text console drawn on a display;
//! - `kms`, `kms_ioctl`: the KMS object model of the graphics drivers and
//!   the decisions of their DRM requests; `ihdgd`: the Intel driver's
//!   buffers;
//! - `hid`: USB HID descriptors and input; `rndis`: the RNDIS network
//!   protocol; `virtio`: probing VirtIO devices;
//! - `daemon`: readiness of daemons started by init; `rtc`: the clock
//!   daemon's arithmetic;
//! - `errno`, `util`: error numbers and small parsers.

pub mod console_draw;
pub mod daemon;
pub mod errno;
pub mod hid;
pub mod ihdgd;
pub mod init;
pub mod kms;
pub mod kms_ioctl;
pub mod psf;
pub mod pty;
pub mod raid1;
pub mod rndis;
pub mod rtc;
pub mod shm;
pub mod util;
pub mod virtio;
