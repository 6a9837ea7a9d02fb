//! The direct-boot strategy as a sequence of decisions. The caller performs
//! each requested action (read a file, allocate pages, copy, leave the
//! firmware, jump) and reports its outcome; every check and every byte of
//! the boot parameter block is decided here.

use vstd::prelude::*;
use vstd::utf8::encode_utf8;

use crate::abi::{
    pages_for, pages_spec, BOOT_PARAMS_ADDR, BOOT_PARAMS_SIZE, KERNEL_ENTRY_OFFSET,
    KERNEL_LOAD_ADDR, SETUP_HEADER_OFFSET,
};
use crate::boot_params::{
    command_line_bytes, header_check, initial_block, install_e820, new_boot_params, set_cmd_line_ptr,
    set_ramdisk, validate_kernel_header, with_cmd_line, with_e820, with_ramdisk, HeaderError,
};
use crate::memory_map::{translate_memory_map, translation, FirmwareDescriptor, MemoryMapError};

verus! {

/// Where a direct boot stands: what outcome it waits for next.
#[derive(Clone, Copy, Debug, PartialEq, Eq, Structural)]
pub enum Stage {
    /// Waits for the kernel image's bytes.
    ReadKernel,
    /// Waits for the fixed-address allocation for the kernel.
    PlaceKernel,
    /// Waits for the kernel image to be copied into place.
    CopyKernel,
    /// Waits for the initial ramdisk's bytes.
    ReadInitrd,
    /// Waits for the allocation for the initial ramdisk.
    PlaceInitrd,
    /// Waits for the initial ramdisk to be copied into place.
    CopyInitrd,
    /// Waits for the fixed-address allocation for the boot parameter block.
    PlaceParams,
    /// Waits for the allocation for the command line.
    PlaceCmdline,
    /// Waits for the command line to be copied into place.
    CopyCmdline,
    /// Waits for the final memory map, after leaving the firmware.
    AwaitMemoryMap,
    /// Control has been handed to the kernel.
    Launched,
    /// The attempt is over; nothing more will be asked.
    Failed,
}

/// Why a direct boot stopped.
#[derive(Clone, Copy, Debug, PartialEq, Eq, Structural)]
pub enum LoadError {
    /// The kernel image is too short or lacks the header magic.
    HeaderInvalid(HeaderError),
    /// A fixed-address allocation came back at another address.
    FixedAllocationMismatch { requested: u64, got: u64 },
    /// The final memory map cannot be given to the kernel.
    MemoryMapInvalid(MemoryMapError),
    /// An outcome was reported that the current stage does not wait for.
    OutOfOrder,
}

/// What the caller is asked to do next.
#[derive(Debug)]
pub enum Action {
    /// Read the whole file at this path and report its bytes.
    ReadFile(String),
    /// Allocate pages at exactly this physical address and report the address obtained.
    AllocateAt { address: u64, pages: usize },
    /// Allocate pages anywhere and report the address obtained.
    AllocateAnywhere { pages: usize },
    /// Copy the file read last to this address and report when done.
    CopyFile { address: u64 },
    /// Copy these bytes to this address and report when done.
    CopyBytes { address: u64, bytes: Vec<u8> },
    /// Leave the firmware for good and report its final memory map.
    ExitFirmware,
    /// Write `params` at the boot parameter address and jump to `entry`.
    Launch { entry: u64, params: Vec<u8> },
    /// Give up for this reason.
    Fail(LoadError),
}

/// The state of one direct-boot attempt.
pub struct DirectBoot {
    pub stage: Stage,
    pub initrd_path: Option<String>,
    pub cmdline: Option<String>,
    /// The kernel image's bytes before the setup header.
    pub image_prefix: Vec<u8>,
    pub initrd_addr: u64,
    pub initrd_size: u64,
    /// The boot parameter block under construction.
    pub params: Vec<u8>,
}

/// The first bytes of an image that the boot parameter block copies.
pub open spec fn prefix_of(image: Seq<u8>) -> Seq<u8> {
    if image.len() < SETUP_HEADER_OFFSET {
        image
    } else {
        image.take(SETUP_HEADER_OFFSET as int)
    }
}

/// The failure for a fixed-address allocation that came back elsewhere.
pub open spec fn mismatch(requested: u64, got: u64) -> Action {
    Action::Fail(LoadError::FixedAllocationMismatch { requested, got })
}

/// Nothing but the stage changes, to `stage`.
pub open spec fn only_stage(pre: &DirectBoot, post: &DirectBoot, stage: Stage) -> bool {
    &&& post.stage == stage
    &&& post.image_prefix == pre.image_prefix
    &&& post.initrd_addr == pre.initrd_addr
    &&& post.initrd_size == pre.initrd_size
    &&& post.params == pre.params
}

/// An outcome the stage does not wait for ends the attempt.
pub open spec fn out_of_order(post: &DirectBoot, r: Action) -> bool {
    r == Action::Fail(LoadError::OutOfOrder) && post.stage == Stage::Failed
}

/// The step taken when a file's bytes arrive.
pub open spec fn file_read_step(pre: &DirectBoot, data: Seq<u8>, post: &DirectBoot, r: Action) -> bool {
    match pre.stage {
        Stage::ReadKernel => match header_check(data) {
            Err(e) => r == Action::Fail(LoadError::HeaderInvalid(e)) && post.stage == Stage::Failed,
            Ok(_) => {
                &&& r == Action::AllocateAt {
                    address: KERNEL_LOAD_ADDR,
                    pages: pages_spec(data.len() as int) as usize,
                }
                &&& post.stage == Stage::PlaceKernel
                &&& post.image_prefix@ == prefix_of(data)
                &&& post.initrd_addr == pre.initrd_addr
                &&& post.initrd_size == pre.initrd_size
            },
        },
        Stage::ReadInitrd => {
            &&& r == Action::AllocateAnywhere { pages: pages_spec(data.len() as int) as usize }
            &&& post.stage == Stage::PlaceInitrd
            &&& post.initrd_size == data.len()
            &&& post.initrd_addr == pre.initrd_addr
            &&& post.image_prefix == pre.image_prefix
        },
        _ => out_of_order(post, r),
    }
}

/// The step taken when an allocation returns `address`.
pub open spec fn allocated_step(pre: &DirectBoot, address: u64, post: &DirectBoot, r: Action) -> bool {
    match pre.stage {
        Stage::PlaceKernel => if address != KERNEL_LOAD_ADDR {
            r == mismatch(KERNEL_LOAD_ADDR, address) && post.stage == Stage::Failed
        } else {
            r == Action::CopyFile { address } && only_stage(pre, post, Stage::CopyKernel)
        },
        Stage::PlaceInitrd => {
            &&& r == Action::CopyFile { address }
            &&& post.stage == Stage::CopyInitrd
            &&& post.initrd_addr == address
            &&& post.initrd_size == pre.initrd_size
            &&& post.image_prefix == pre.image_prefix
        },
        Stage::PlaceParams => if address != BOOT_PARAMS_ADDR {
            r == mismatch(BOOT_PARAMS_ADDR, address) && post.stage == Stage::Failed
        } else {
            &&& post.params@ == with_ramdisk(
                initial_block(pre.image_prefix@),
                pre.initrd_addr,
                pre.initrd_size,
            )
            &&& match pre.cmdline {
                Some(c) => r == Action::AllocateAnywhere {
                    pages: pages_spec(encode_utf8(c@).len() + 1int) as usize,
                } && post.stage == Stage::PlaceCmdline,
                None => r == Action::ExitFirmware && post.stage == Stage::AwaitMemoryMap,
            }
        },
        Stage::PlaceCmdline => {
            &&& post.params@ == with_cmd_line(pre.params@, address)
            &&& post.stage == Stage::CopyCmdline
            &&& match r {
                Action::CopyBytes { address: a, bytes } => a == address && bytes@
                    == encode_utf8(pre.cmdline->Some_0@).push(0u8),
                _ => false,
            }
        },
        _ => out_of_order(post, r),
    }
}

/// The step taken when a copy is done.
pub open spec fn copied_step(pre: &DirectBoot, post: &DirectBoot, r: Action) -> bool {
    match pre.stage {
        Stage::CopyKernel => match pre.initrd_path {
            Some(p) => r == Action::ReadFile(p) && only_stage(pre, post, Stage::ReadInitrd),
            None => r == Action::AllocateAt { address: BOOT_PARAMS_ADDR, pages: 1 } && only_stage(
                pre,
                post,
                Stage::PlaceParams,
            ),
        },
        Stage::CopyInitrd => r == Action::AllocateAt { address: BOOT_PARAMS_ADDR, pages: 1 }
            && only_stage(pre, post, Stage::PlaceParams),
        Stage::CopyCmdline => r == Action::ExitFirmware && only_stage(
            pre,
            post,
            Stage::AwaitMemoryMap,
        ),
        _ => out_of_order(post, r),
    }
}

/// The step taken when the final memory map arrives.
pub open spec fn memory_map_step(pre: &DirectBoot, map: Seq<FirmwareDescriptor>, post: &DirectBoot, r: Action) -> bool {
    match pre.stage {
        Stage::AwaitMemoryMap => match translation(map) {
            Err(e) => r == Action::Fail(LoadError::MemoryMapInvalid(e)) && post.stage
                == Stage::Failed,
            Ok(t) => {
                &&& post.stage == Stage::Launched
                &&& post.params@ == with_e820(pre.params@, t)
                &&& match r {
                    Action::Launch { entry, params } => entry == KERNEL_LOAD_ADDR
                        + KERNEL_ENTRY_OFFSET && params@ == post.params@,
                    _ => false,
                }
            },
        },
        _ => out_of_order(post, r),
    }
}

impl DirectBoot {
    /// The block exists, at full size, from the boot parameter allocation on.
    pub open spec fn wf(&self) -> bool {
        match self.stage {
            Stage::PlaceCmdline | Stage::CopyCmdline => {
                self.params@.len() == BOOT_PARAMS_SIZE && self.cmdline is Some
            },
            Stage::AwaitMemoryMap | Stage::Launched => self.params@.len() == BOOT_PARAMS_SIZE,
            _ => true,
        }
    }

    /// The paths and command line asked for stay as they were.
    pub open spec fn same_request(&self, other: &DirectBoot) -> bool {
        &&& self.initrd_path == other.initrd_path
        &&& self.cmdline == other.cmdline
    }

    /// Begins an attempt: the first step reads the kernel image.
    pub fn start(kernel_path: String, initrd_path: Option<String>, cmdline: Option<String>) -> (r: (
        DirectBoot,
        Action,
    ))
        ensures
            r.0.wf(),
            r.0.stage == Stage::ReadKernel,
            r.0.initrd_path == initrd_path,
            r.0.cmdline == cmdline,
            r.0.initrd_addr == 0,
            r.0.initrd_size == 0,
            r.1 == Action::ReadFile(kernel_path),
    {
        let m = DirectBoot {
            stage: Stage::ReadKernel,
            initrd_path,
            cmdline,
            image_prefix: Vec::new(),
            initrd_addr: 0,
            initrd_size: 0,
            params: Vec::new(),
        };
        (m, Action::ReadFile(kernel_path))
    }

    /// A file was read. The kernel image is checked before anything is
    /// allocated; the ramdisk's length is recorded.
    pub fn on_file_read(&mut self, data: &[u8]) -> (r: Action)
        requires
            old(self).wf(),
        ensures
            final(self).wf(),
            final(self).same_request(old(self)),
            file_read_step(old(self), data@, final(self), r),
            old(self).stage == Stage::ReadKernel && header_check(data@) is Err ==> (r is Fail
                && final(self).stage == Stage::Failed),
    {
        match self.stage {
            Stage::ReadKernel => {
                match validate_kernel_header(data) {
                    Err(e) => {
                        self.stage = Stage::Failed;
                        Action::Fail(LoadError::HeaderInvalid(e))
                    },
                    Ok(()) => {
                        let n = if data.len() < SETUP_HEADER_OFFSET {
                            data.len()
                        } else {
                            SETUP_HEADER_OFFSET
                        };
                        let mut prefix: Vec<u8> = Vec::new();
                        let mut k: usize = 0;
                        while k < n
                            invariant
                                n <= data@.len(),
                                n == data@.len() || n == SETUP_HEADER_OFFSET,
                                k <= n,
                                prefix@ == data@.take(k as int),
                            decreases n - k,
                        {
                            prefix.push(data[k]);
                            assert(prefix@ =~= data@.take(k as int + 1));
                            k = k + 1;
                        }
                        assert(prefix@ =~= prefix_of(data@));
                        self.image_prefix = prefix;
                        self.stage = Stage::PlaceKernel;
                        Action::AllocateAt { address: KERNEL_LOAD_ADDR, pages: pages_for(data.len()) }
                    },
                }
            },
            Stage::ReadInitrd => {
                self.initrd_size = data.len() as u64;
                self.stage = Stage::PlaceInitrd;
                Action::AllocateAnywhere { pages: pages_for(data.len()) }
            },
            _ => {
                self.stage = Stage::Failed;
                Action::Fail(LoadError::OutOfOrder)
            },
        }
    }

    /// Pages were allocated at `address`. A fixed-address allocation that
    /// came back elsewhere ends the attempt: it is never retried.
    pub fn on_allocated(&mut self, address: u64) -> (r: Action)
        requires
            old(self).wf(),
        ensures
            final(self).wf(),
            final(self).same_request(old(self)),
            allocated_step(old(self), address, final(self), r),
            old(self).stage == Stage::PlaceKernel && address != KERNEL_LOAD_ADDR ==> (r
                == mismatch(KERNEL_LOAD_ADDR, address) && final(self).stage == Stage::Failed),
            old(self).stage == Stage::PlaceParams && address != BOOT_PARAMS_ADDR ==> (r
                == mismatch(BOOT_PARAMS_ADDR, address) && final(self).stage == Stage::Failed),
    {
        match self.stage {
            Stage::PlaceKernel => {
                if address != KERNEL_LOAD_ADDR {
                    self.stage = Stage::Failed;
                    Action::Fail(
                        LoadError::FixedAllocationMismatch {
                            requested: KERNEL_LOAD_ADDR,
                            got: address,
                        },
                    )
                } else {
                    self.stage = Stage::CopyKernel;
                    Action::CopyFile { address }
                }
            },
            Stage::PlaceInitrd => {
                self.initrd_addr = address;
                self.stage = Stage::CopyInitrd;
                Action::CopyFile { address }
            },
            Stage::PlaceParams => {
                if address != BOOT_PARAMS_ADDR {
                    self.stage = Stage::Failed;
                    Action::Fail(
                        LoadError::FixedAllocationMismatch {
                            requested: BOOT_PARAMS_ADDR,
                            got: address,
                        },
                    )
                } else {
                    let mut block = new_boot_params(self.image_prefix.as_slice());
                    set_ramdisk(&mut block, self.initrd_addr, self.initrd_size);
                    self.params = block;
                    match &self.cmdline {
                        Some(c) => {
                            let bytes = command_line_bytes(c.as_str());
                            let pages = pages_for(bytes.len());
                            self.stage = Stage::PlaceCmdline;
                            Action::AllocateAnywhere { pages }
                        },
                        None => {
                            self.stage = Stage::AwaitMemoryMap;
                            Action::ExitFirmware
                        },
                    }
                }
            },
            Stage::PlaceCmdline => {
                set_cmd_line_ptr(&mut self.params, address);
                self.stage = Stage::CopyCmdline;
                let bytes = match &self.cmdline {
                    Some(c) => command_line_bytes(c.as_str()),
                    None => Vec::new(),
                };
                Action::CopyBytes { address, bytes }
            },
            _ => {
                self.stage = Stage::Failed;
                Action::Fail(LoadError::OutOfOrder)
            },
        }
    }

    /// The last copy requested is done.
    pub fn on_copied(&mut self) -> (r: Action)
        requires
            old(self).wf(),
        ensures
            final(self).wf(),
            final(self).same_request(old(self)),
            copied_step(old(self), final(self), r),
    {
        match self.stage {
            Stage::CopyKernel => {
                match &self.initrd_path {
                    Some(p) => {
                        self.stage = Stage::ReadInitrd;
                        Action::ReadFile(p.clone())
                    },
                    None => {
                        self.stage = Stage::PlaceParams;
                        Action::AllocateAt { address: BOOT_PARAMS_ADDR, pages: 1 }
                    },
                }
            },
            Stage::CopyInitrd => {
                self.stage = Stage::PlaceParams;
                Action::AllocateAt { address: BOOT_PARAMS_ADDR, pages: 1 }
            },
            Stage::CopyCmdline => {
                self.stage = Stage::AwaitMemoryMap;
                Action::ExitFirmware
            },
            _ => {
                self.stage = Stage::Failed;
                Action::Fail(LoadError::OutOfOrder)
            },
        }
    }

    /// The firmware is gone and this is its final memory map. The map is
    /// translated and installed, and the kernel is launched; a map that
    /// cannot be translated ends the attempt.
    pub fn on_memory_map(&mut self, map: &[FirmwareDescriptor]) -> (r: Action)
        requires
            old(self).wf(),
        ensures
            final(self).wf(),
            final(self).same_request(old(self)),
            memory_map_step(old(self), map@, final(self), r),
    {
        match self.stage {
            Stage::AwaitMemoryMap => {
                match translate_memory_map(map) {
                    Err(e) => {
                        self.stage = Stage::Failed;
                        Action::Fail(LoadError::MemoryMapInvalid(e))
                    },
                    Ok(t) => {
                        install_e820(&mut self.params, &t);
                        self.stage = Stage::Launched;
                        Action::Launch {
                            entry: KERNEL_LOAD_ADDR + KERNEL_ENTRY_OFFSET,
                            params: self.params.clone(),
                        }
                    },
                }
            },
            _ => {
                self.stage = Stage::Failed;
                Action::Fail(LoadError::OutOfOrder)
            },
        }
    }
}

} // verus!
