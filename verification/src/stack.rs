//! Resolution of raw instruction-pointer stacks into categorized frames.
//!
//! A raw stack is a leaf-to-root sequence of addresses, each tagged as a
//! user-space or kernel address; an optional synthetic label frame may be
//! prepended. Addresses are resolved against the replayed library-mapping
//! state; addresses no mapping covers become explicit unknown frames, never
//! errors. A depth limiter collapses root-ward excess frames into a single
//! truncation marker so the leaf-ward frames — the diagnostically valuable
//! ones — always survive unchanged.

use vstd::prelude::*;
use crate::handles::CategoryHandle;
use crate::handles::StringHandle;
use crate::mapping::ActiveMapping;
use crate::mapping::LibMappingsHierarchy;

verus! {

/// One frame of a raw, unresolved stack, leaf-to-root.
#[derive(Debug, Clone, Copy, PartialEq, Eq, Structural)]
pub enum StackFrame {
    /// An instruction pointer in user space.
    User(u64),
    /// An instruction pointer in kernel space.
    Kernel(u64),
    /// A synthetic label frame.
    Label(StringHandle),
}

/// Where a resolved frame points.
#[derive(Debug, Clone, Copy, PartialEq, Eq, Structural)]
pub enum FrameLocation {
    /// The address fell inside an active mapping.
    Resolved { lib_id: u64, relative_address: u64 },
    /// No active mapping covered the address.
    Unknown { address: u64 },
    /// A synthetic label frame.
    Label { name: StringHandle },
    /// Stands for the root-ward frames a depth limit collapsed.
    Truncated,
}

/// One categorized output frame.
#[derive(Debug, Clone, Copy, PartialEq, Eq, Structural)]
pub struct ResolvedFrame {
    pub category: CategoryHandle,
    pub location: FrameLocation,
}

/// The location an address resolves to under the active-mapping table
/// `m`: its library-relative address where a mapping covers it, an
/// explicit unknown otherwise.
pub open spec fn spec_location_of(m: Map<u64, ActiveMapping>, addr: u64) -> FrameLocation {
    if exists|k: u64| m.dom().contains(k) && (#[trigger] m[k]).contains_addr(addr) {
        let k = choose|k: u64| m.dom().contains(k) && (#[trigger] m[k]).contains_addr(addr);
        FrameLocation::Resolved {
            lib_id: m[k].info.lib_id,
            relative_address: (m[k].relocation_base + (addr - m[k].start_avma)) as u64,
        }
    } else {
        FrameLocation::Unknown { address: addr }
    }
}

/// Turns raw frames into categorized frames against the replayed mapping
/// state: kernel frames get the kernel category, everything else the user
/// category.
#[derive(Debug, Clone, Copy)]
pub struct StackConverter {
    pub user_category: CategoryHandle,
    pub kernel_category: CategoryHandle,
}

impl StackConverter {
    pub fn new(user_category: CategoryHandle, kernel_category: CategoryHandle) -> (r:
        StackConverter)
        ensures
            r.user_category == user_category,
            r.kernel_category == kernel_category,
    {
        StackConverter { user_category, kernel_category }
    }

    /// The resolved form of one raw frame under mapping table `m`.
    pub open spec fn spec_convert_frame(self, m: Map<u64, ActiveMapping>, f: StackFrame)
        -> ResolvedFrame {
        match f {
            StackFrame::User(addr) => ResolvedFrame {
                category: self.user_category,
                location: spec_location_of(m, addr),
            },
            StackFrame::Kernel(addr) => ResolvedFrame {
                category: self.kernel_category,
                location: spec_location_of(m, addr),
            },
            StackFrame::Label(name) => ResolvedFrame {
                category: self.user_category,
                location: FrameLocation::Label { name },
            },
        }
    }

    fn convert_one(&self, hierarchy: &LibMappingsHierarchy, f: StackFrame) -> (r: ResolvedFrame)
        requires
            hierarchy.wf(),
        ensures
            r == self.spec_convert_frame(hierarchy.active(), f),
    {
        match f {
            StackFrame::User(addr) => ResolvedFrame {
                category: self.user_category,
                location: resolve_location(hierarchy, addr),
            },
            StackFrame::Kernel(addr) => ResolvedFrame {
                category: self.kernel_category,
                location: resolve_location(hierarchy, addr),
            },
            StackFrame::Label(name) => ResolvedFrame {
                category: self.user_category,
                location: FrameLocation::Label { name },
            },
        }
    }

    /// Resolves a whole raw stack, leaf-to-root order preserved, with the
    /// optional synthetic label frame prepended at the leaf end.
    pub fn convert_stack(
        &self,
        frames: &Vec<StackFrame>,
        hierarchy: &LibMappingsHierarchy,
        extra_label_frame: Option<StringHandle>,
    ) -> (r: Vec<ResolvedFrame>)
        requires
            hierarchy.wf(),
        ensures
            r@ == label_prefix(*self, extra_label_frame) + frames@.map(
                |i: int, f: StackFrame| self.spec_convert_frame(hierarchy.active(), f),
            ),
    {
        let mut out: Vec<ResolvedFrame> = Vec::new();
        let ghost prefix = label_prefix(*self, extra_label_frame);
        match extra_label_frame {
            Some(name) => {
                out.push(ResolvedFrame {
                    category: self.user_category,
                    location: FrameLocation::Label { name },
                });
            },
            None => {},
        }
        let ghost mapped = frames@.map(
            |i: int, f: StackFrame| self.spec_convert_frame(hierarchy.active(), f),
        );
        let n = frames.len();
        let mut i: usize = 0;
        proof {
            assert(out@ =~= prefix + mapped.subrange(0, 0));
        }
        while i < n
            invariant
                0 <= i <= n,
                n == frames@.len(),
                mapped == frames@.map(
                    |i: int, f: StackFrame| self.spec_convert_frame(hierarchy.active(), f),
                ),
                prefix == label_prefix(*self, extra_label_frame),
                hierarchy.wf(),
                out@ == prefix + mapped.subrange(0, i as int),
            decreases n - i,
        {
            let rf = self.convert_one(hierarchy, frames[i]);
            out.push(rf);
            proof {
                assert(mapped[i as int] == rf);
                assert((prefix + mapped.subrange(0, i as int)).push(rf) =~= prefix
                    + mapped.subrange(0, i as int + 1));
            }
            i = i + 1;
        }
        proof {
            assert(mapped.subrange(0, n as int) =~= mapped);
        }
        out
    }
}

/// The one-frame prefix a synthetic label contributes, or nothing.
pub open spec fn label_prefix(c: StackConverter, extra: Option<StringHandle>) -> Seq<
    ResolvedFrame,
> {
    match extra {
        Some(name) => seq![
            ResolvedFrame {
                category: c.user_category,
                location: FrameLocation::Label { name },
            },
        ],
        None => Seq::<ResolvedFrame>::empty(),
    }
}

/// Resolves one address against the replayed state.
fn resolve_location(hierarchy: &LibMappingsHierarchy, addr: u64) -> (r: FrameLocation)
    requires
        hierarchy.wf(),
    ensures
        r == spec_location_of(hierarchy.active(), addr),
{
    let ghost m = hierarchy.active();
    match hierarchy.resolve(addr) {
        Some(am) => {
            let rel = am.relative_address(addr);
            proof {
                assert(m.dom().contains(am.start_avma) && m[am.start_avma].contains_addr(addr));
                let k = choose|k: u64| m.dom().contains(k) && (#[trigger] m[k]).contains_addr(
                    addr,
                );
                assert(k == am.start_avma);
            }
            FrameLocation::Resolved { lib_id: am.info.lib_id, relative_address: rel }
        },
        None => {
            proof {
                assert(!exists|k: u64| m.dom().contains(k) && (#[trigger] m[k]).contains_addr(
                    addr,
                ));
            }
            FrameLocation::Unknown { address: addr }
        },
    }
}

/// Enforces the output format's maximum stack depth: a stack within the
/// limit passes through unchanged; a deeper one keeps its leaf-ward
/// `max_depth - 1` frames and collapses the root-ward excess into a single
/// truncation marker frame, so exactly `max_depth` frames come out.
pub fn limit_stack_depth(
    frames: Vec<ResolvedFrame>,
    max_depth: usize,
    truncation_category: CategoryHandle,
) -> (r: Vec<ResolvedFrame>)
    requires
        max_depth >= 1,
    ensures
        frames@.len() <= max_depth ==> r@ == frames@,
        frames@.len() > max_depth ==> r@ == frames@.subrange(0, max_depth - 1).push(
            ResolvedFrame { category: truncation_category, location: FrameLocation::Truncated },
        ),
        r@.len() <= max_depth,
{
    if frames.len() <= max_depth {
        return frames;
    }
    let mut out = frames;
    out.truncate(max_depth - 1);
    out.push(ResolvedFrame { category: truncation_category, location: FrameLocation::Truncated });
    out
}

} // verus!
