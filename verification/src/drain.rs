//! The decisions of one drain cycle: which processes need their memory maps
//! re-read, how a sample's stacks become one outermost-first frame chain,
//! and when the counting map is close to full.

use vstd::prelude::*;

use crate::kallsyms::Kallsyms;
use crate::symbolize::{frame_models, kernel_frame, resolve_kernel, Frame, FrameModel};
use crate::symtab::lookup_last;

verus! {

/// The capacity of the kernel map that counts samples per unique stack.
pub const COUNTS_MAX_ENTRIES: usize = 10240;

/// Whether `unique_stacks` entries fill at least 95% of the counting map, at
/// which point samples may be silently dropped.
pub fn near_capacity(unique_stacks: usize) -> (b: bool)
    ensures
        b == (20 * unique_stacks >= 19 * COUNTS_MAX_ENTRIES),
{
    unique_stacks >= 9728
}

/// The PID filter flag of the sampling program: set exactly when specific
/// PIDs are targeted.
pub fn target_filter_flag(pids: &[u32]) -> (f: u32)
    ensures
        f == if pids@.len() == 0 {
            0u32
        } else {
            1u32
        },
{
    if pids.len() == 0 {
        0
    } else {
        1
    }
}

/// The key under which a recorded stack is kept in the stack-trace map; a
/// negative id marks a stack that could not be recorded.
pub fn recorded_stack(id: i32) -> (k: Option<u32>)
    ensures
        match k {
            Some(v) => id >= 0 && v == id,
            None => id < 0,
        },
{
    if id >= 0 {
        Some(id as u32)
    } else {
        None
    }
}

/// The distinct values of `s` in order of first occurrence.
pub open spec fn first_occurrences(s: Seq<u32>) -> Seq<u32>
    decreases s.len(),
{
    if s.len() == 0 {
        seq![]
    } else {
        let rest = first_occurrences(s.drop_last());
        if rest.contains(s.last()) {
            rest
        } else {
            rest.push(s.last())
        }
    }
}

/// The distinct process ids among the samples, in order of first
/// appearance: each process's memory maps are re-read once per cycle.
pub fn distinct_pids(tgids: &[u32]) -> (r: Vec<u32>)
    ensures
        r@ == first_occurrences(tgids@),
{
    let mut r: Vec<u32> = Vec::new();
    let mut i: usize = 0;
    while i < tgids.len()
        invariant
            i <= tgids@.len(),
            r@ == first_occurrences(tgids@.take(i as int)),
        decreases tgids@.len() - i,
    {
        assert(tgids@.take(i + 1).drop_last() =~= tgids@.take(i as int));
        let t = tgids[i];
        let mut seen = false;
        let mut j: usize = 0;
        while j < r.len()
            invariant
                j <= r@.len(),
                seen == exists|k: int| 0 <= k < j && r@[k] == t,
            decreases r@.len() - j,
        {
            if r[j] == t {
                seen = true;
            }
            j = j + 1;
        }
        assert(seen == r@.contains(t));
        if !seen {
            r.push(t);
        }
        i = i + 1;
    }
    assert(tgids@.take(tgids@.len() as int) =~= tgids@);
    r
}

/// The frames of a kernel stack, in the order of its addresses.
pub fn kernel_stack(kallsyms: &Kallsyms, ips: &[u64]) -> (r: Vec<Frame>)
    ensures
        r@.len() == ips@.len(),
        forall|i: int|
            0 <= i < ips@.len() ==> (#[trigger] r@[i])@ == kernel_frame(
                lookup_last(kallsyms.symbols(), ips@[i]),
            ),
{
    let mut r: Vec<Frame> = Vec::new();
    let mut i: usize = 0;
    while i < ips.len()
        invariant
            i <= ips@.len(),
            r@.len() == i,
            forall|k: int|
                0 <= k < i ==> (#[trigger] r@[k])@ == kernel_frame(
                    lookup_last(kallsyms.symbols(), ips@[k]),
                ),
        decreases ips@.len() - i,
    {
        r.push(resolve_kernel(kallsyms, ips[i]));
        i = i + 1;
    }
    r
}

/// The frame chain of one sample, outermost first: the user frames, then the
/// kernel frames (a kernel stack is entered from the user-space point where
/// the thread made its system call), each given innermost first as recorded;
/// a sample with neither stack is one unknown frame.
pub open spec fn sample_chain(user: Option<Seq<FrameModel>>, kernel: Option<Seq<FrameModel>>) -> Seq<
    FrameModel,
> {
    let u = match user {
        Some(s) => s.reverse(),
        None => seq![],
    };
    let k = match kernel {
        Some(s) => s.reverse(),
        None => seq![],
    };
    if u.len() + k.len() == 0 {
        seq![FrameModel::Unknown]
    } else {
        u + k
    }
}

/// How a sample's stacks become one chain: the user frames come first,
/// outermost (the last recorded) first, then the kernel frames, outermost
/// first as well, each stack reversed on its own whether or not the other
/// was recorded; a sample with no frame at all is one unknown frame.
pub proof fn law_sample_chain_order(user: Option<Seq<FrameModel>>, kernel: Option<Seq<FrameModel>>)
    ensures
        ({
            let u = match user {
                Some(s) => s,
                None => seq![],
            };
            let k = match kernel {
                Some(s) => s,
                None => seq![],
            };
            let c = sample_chain(user, kernel);
            &&& u.len() + k.len() == 0 ==> c == seq![FrameModel::Unknown]
            &&& u.len() + k.len() > 0 ==> {
                &&& c.len() == u.len() + k.len()
                &&& forall|i: int| 0 <= i < u.len() ==> #[trigger] c[i] == u[u.len() - 1 - i]
                &&& forall|i: int| 0 <= i < k.len() ==> #[trigger] c[c.len() - 1 - i] == k[i]
            }
        }),
{
    let u = match user {
        Some(s) => s,
        None => seq![],
    };
    let k = match kernel {
        Some(s) => s,
        None => seq![],
    };
    let c = sample_chain(user, kernel);
    if u.len() + k.len() > 0 {
        assert(c == u.reverse() + k.reverse()) by {
            match user {
                Some(s) => {},
                None => { assert(u.reverse() =~= Seq::<FrameModel>::empty()); },
            }
            match kernel {
                Some(s) => {},
                None => { assert(k.reverse() =~= Seq::<FrameModel>::empty()); },
            }
        }
        assert forall|i: int| 0 <= i < k.len() implies #[trigger] c[c.len() - 1 - i] == k[i] by {
            assert(c[c.len() - 1 - i] == k.reverse()[k.len() - 1 - i]);
        }
    } else {
        match user {
            Some(s) => {},
            None => {},
        }
    }
}

/// The models of a stack that may not have been recorded.
pub open spec fn optional_models(v: Option<Vec<Frame>>) -> Option<Seq<FrameModel>> {
    match v {
        Some(v) => Some(frame_models(v@)),
        None => None,
    }
}

/// Appends `frames` to `out` in reverse order.
fn push_reversed(out: &mut Vec<Frame>, frames: Vec<Frame>)
    ensures
        frame_models(final(out)@) == frame_models(old(out)@) + frame_models(frames@).reverse(),
{
    let mut frames = frames;
    let ghost fs = frame_models(frames@);
    let ghost start = frame_models(out@);
    while frames.len() > 0
        invariant
            frame_models(out@) == start + fs.subrange(frames@.len() as int, fs.len() as int).reverse(),
            frames@.len() <= fs.len(),
            frame_models(frames@) == fs.take(frames@.len() as int),
        decreases frames@.len(),
    {
        let ghost n = frames@.len() as int;
        let ghost fv = frames@;
        let f = frames.pop().unwrap();
        assert(f == fv[n - 1]);
        assert(frame_models(fv)[n - 1] == fs[n - 1]);
        let ghost before = out@;
        out.push(f);
        assert(frame_models(frames@) =~= fs.take(n - 1));
        assert(f@ == fs[n - 1]);
        assert(frame_models(out@) =~= frame_models(before).push(f@));
        assert(fs.subrange(n - 1, fs.len() as int).reverse() =~= fs.subrange(n, fs.len() as int).reverse().push(fs[n - 1]));
    }
    assert(fs.subrange(0, fs.len() as int) =~= fs);
}

/// Builds the frame chain of one sample from its recorded user and kernel
/// stacks, each innermost first; `None` for a stack that was not recorded.
pub fn build_stack(user: Option<Vec<Frame>>, kernel: Option<Vec<Frame>>) -> (r: Vec<Frame>)
    ensures
        frame_models(r@) == sample_chain(optional_models(user), optional_models(kernel)),
{
    let ghost km = optional_models(kernel);
    let mut r: Vec<Frame> = Vec::new();
    assert(frame_models(r@) =~= Seq::<FrameModel>::empty());
    match user {
        Some(v) => push_reversed(&mut r, v),
        None => {},
    }
    let ghost mid = frame_models(r@);
    match kernel {
        Some(v) => push_reversed(&mut r, v),
        None => {},
    }
    assert(frame_models(r@) =~= mid + match km {
        Some(s) => s.reverse(),
        None => Seq::<FrameModel>::empty(),
    });
    if r.len() == 0 {
        r.push(Frame::Unknown);
        assert(frame_models(r@) =~= seq![FrameModel::Unknown]);
    }
    r
}

} // verus!
