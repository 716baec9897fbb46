# kstorage

The storage stack of a small kernel, written and proved in Verus: block devices and
their cache, partition tables, the FAT32, NTFS and in-memory file systems, and the
drivers that the stack stands on.

- `src/` is the library. Verus proves what the functions there do, but for the calls into
  outside crates and the standard library that `collections.rs`, `text.rs` and the sorting
  of runs in `ntfs/inode.rs` wrap: the contracts of those wrappers are taken on trust.
  - `blockdriver/`: the interface of a block device, the sector cache, the driver
    registry, address translation, and AHCI controllers with queued commands.
  - `drivers/`: an AHCI driver that runs one command at a time, the PS/2 keyboard, the
    clock and the serial port.
  - `partition/`: MBR and GPT, a partition as a device, and the order of mount attempts.
  - `fat32/`, `ntfs/`, `tmpfs/`: the file systems. `fstypes.rs` finds them by name.
  - `dtb.rs`: the blob in which firmware describes a machine.
  - `replay.rs`: procedures that talk to hardware, written as functions of the replies so
    far, so that what they do can be stated and proved without the hardware.
  - `collections.rs`, `text.rs`: hash tables and text, with what is taken on trust of
    the crates and the standard library that they rest on.
- `tests/` runs the library on devices in memory and on simulated hardware.
- `app/` holds the registers, the memory and the locks around the library.

The properties that hold across functions are the public proof functions whose names
begin with `law_`.
