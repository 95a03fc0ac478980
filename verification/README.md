# eos_base

The logic of the E-OS base system — drivers, `init` and core daemons —
as a library whose behaviour is stated in contracts and proved with Verus.

- `src/` — the verified library, one module per component:
  `raid1` (mirror superblocks, assembly, write and resync decisions),
  `kms` and `kms_ioctl` (display objects and the DRM requests on them),
  `console_draw` (text console drawing), `psf` (PC Screen Font files), `hid` (HID descriptors and input
  events), `rndis` (USB network framing), `pty` (pseudo-terminal control
  files), `shm` (shared memory scheme), `init` (units, scripts and the
  start scheduler), `virtio`, `ihdgd`, `rtc`, `daemon`, and the shared
  `errno` and `util`.
- `tests/` — tests of the library on concrete values.
- `app/` — the I/O around part of the library: the `init`, `raid1d` and
  `rtcd` programs (file and device I/O, process spawning), and the shared
  memory scheme's and daemon readiness plumbing. The display, input,
  network, VirtIO and pseudo-terminal drivers have no program here; their
  logic is in `src/` and their device and scheme I/O is not included.
