//! Stack frames: the kernel/user/unknown distinction carried from symbol
//! resolution through to flame-graph colouring, and the resolution of an
//! instruction pointer to a frame.

use vstd::prelude::*;

use crate::kallsyms::Kallsyms;
use crate::num::{hex, push_hex};
use crate::symtab::lookup_last;
use crate::text::{chars_of, string_of};
use crate::symtab::lookup_first;
use crate::usersym::{file_address, lemma_cached_table_listed, BinarySymbolTable, TableRequest, UserLookup, UserSymbolCache};

verus! {

/// The layer a frame belongs to.
#[derive(Clone, Copy, Debug, PartialEq, Eq, Structural)]
pub enum FrameKind {
    Kernel,
    User,
    Unknown,
}

/// One resolved stack frame.
#[derive(Clone, Debug, PartialEq, Eq, Hash)]
pub enum Frame {
    Kernel(String),
    User(String),
    Unknown,
}

/// The mathematical value of a frame.
pub enum FrameModel {
    Kernel(Seq<char>),
    User(Seq<char>),
    Unknown,
}

impl FrameModel {
    /// The text a frame is shown with.
    pub open spec fn label(self) -> Seq<char> {
        match self {
            FrameModel::Kernel(s) => s,
            FrameModel::User(s) => s,
            FrameModel::Unknown => "[unknown]"@,
        }
    }

    /// The layer of a frame.
    pub open spec fn kind(self) -> FrameKind {
        match self {
            FrameModel::Kernel(_) => FrameKind::Kernel,
            FrameModel::User(_) => FrameKind::User,
            FrameModel::Unknown => FrameKind::Unknown,
        }
    }
}

impl View for Frame {
    type V = FrameModel;

    open spec fn view(&self) -> FrameModel {
        match self {
            Frame::Kernel(s) => FrameModel::Kernel(s@),
            Frame::User(s) => FrameModel::User(s@),
            Frame::Unknown => FrameModel::Unknown,
        }
    }
}

/// The models of a sequence of frames.
pub open spec fn frame_models(v: Seq<Frame>) -> Seq<FrameModel> {
    v.map_values(|f: Frame| f@)
}

impl Frame {
    /// The text the frame is shown with: the symbol text, or `[unknown]`.
    pub fn label(&self) -> (s: String)
        ensures
            s@ == self@.label(),
    {
        match self {
            Frame::Kernel(s) => s.clone(),
            Frame::User(s) => s.clone(),
            Frame::Unknown => "[unknown]".to_owned(),
        }
    }

    /// The layer the frame belongs to.
    pub fn kind(&self) -> (k: FrameKind)
        ensures
            k == self@.kind(),
    {
        match self {
            Frame::Kernel(_) => FrameKind::Kernel,
            Frame::User(_) => FrameKind::User,
            Frame::Unknown => FrameKind::Unknown,
        }
    }
}

/// Whether two frames are equal.
pub fn frames_equal(a: &Frame, b: &Frame) -> (r: bool)
    ensures
        r == (a@ == b@),
{
    match (a, b) {
        (Frame::Kernel(x), Frame::Kernel(y)) => x.eq(y),
        (Frame::User(x), Frame::User(y)) => x.eq(y),
        (Frame::Unknown, Frame::Unknown) => true,
        _ => false,
    }
}

/// Whether two stacks are equal frame by frame.
pub fn stacks_equal(a: &Vec<Frame>, b: &Vec<Frame>) -> (r: bool)
    ensures
        r == (frame_models(a@) == frame_models(b@)),
{
    if a.len() != b.len() {
        assert(frame_models(a@).len() != frame_models(b@).len());
        return false;
    }
    let mut i: usize = 0;
    while i < a.len()
        invariant
            i <= a@.len(),
            a@.len() == b@.len(),
            forall|k: int| 0 <= k < i ==> a@[k]@ == b@[k]@,
        decreases a@.len() - i,
    {
        if !frames_equal(&a[i], &b[i]) {
            assert(frame_models(a@)[i as int] != frame_models(b@)[i as int]);
            return false;
        }
        i = i + 1;
    }
    assert(frame_models(a@) =~= frame_models(b@));
    true
}

/// The text of a symbol plus offset: the name alone at offset zero, else
/// `name+0x<offset in lowercase hex>`.
pub open spec fn symbol_text(name: Seq<char>, off: u64) -> Seq<char> {
    if off == 0 {
        name
    } else {
        name + seq!['+', '0', 'x'] + hex(off as nat)
    }
}

/// Builds the text of a symbol plus offset.
pub fn symbol_text_of(name: &str, off: u64) -> (s: String)
    ensures
        s@ == symbol_text(name@, off),
{
    if off == 0 {
        name.to_owned()
    } else {
        let mut cs = chars_of(name);
        cs.push('+');
        cs.push('0');
        cs.push('x');
        push_hex(off, &mut cs);
        string_of(cs.as_slice())
    }
}

/// The frame a kernel lookup result is shown as.
pub open spec fn kernel_frame(found: Option<(Seq<char>, u64)>) -> FrameModel {
    match found {
        Some((name, off)) => FrameModel::Kernel(symbol_text(name, off)),
        None => FrameModel::Unknown,
    }
}

/// The frame a user-space lookup result is shown as.
pub open spec fn user_frame(found: Option<(Seq<char>, u64)>) -> FrameModel {
    match found {
        Some((name, off)) => FrameModel::User(symbol_text(name, off)),
        None => FrameModel::Unknown,
    }
}

/// Resolves a kernel instruction pointer to a frame: the symbol it falls in
/// with its offset, or unknown.
pub fn resolve_kernel(kallsyms: &Kallsyms, ip: u64) -> (f: Frame)
    ensures
        f@ == kernel_frame(lookup_last(kallsyms.symbols(), ip)),
{
    match kallsyms.resolve(ip) {
        Some((name, off)) => Frame::Kernel(symbol_text_of(name, off)),
        None => Frame::Unknown,
    }
}


/// Resolves a user-space instruction pointer of process `pid` to a frame:
/// the symbol it falls in with its offset, or unknown; or, when the symbol
/// table of its binary is not cached yet, the request for that table.
pub fn resolve_user(usersyms: &UserSymbolCache, pid: u32, ip: u64) -> (r: Result<Frame, TableRequest>)
    requires
        usersyms.in_range(pid, ip),
    ensures
        match usersyms.expected_lookup(pid, ip) {
            UserLookup::Resolved(found) => r matches Ok(f) && f@ == user_frame(found),
            UserLookup::NeedsTable(dev, inode, path) => r matches Err(req) && req.dev == dev
                && req.inode == inode && req.path@ == path,
        },
{
    match usersyms.resolve(pid, ip) {
        Ok(Some((name, off))) => Ok(Frame::User(symbol_text_of(name.as_str(), off))),
        Ok(None) => Ok(Frame::Unknown),
        Err(req) => Err(req),
    }
}

/// Resolves `ip` of process `pid` once the symbol table its lookup asked
/// for has been read: the table is cached, as one more cached binary, and
/// `ip` resolved against it. When
/// the table could not be read (`None`), nothing is cached and the frame is
/// unknown, so the binary is tried again the next time it is needed.
pub fn resolve_user_loaded(
    usersyms: &mut UserSymbolCache,
    pid: u32,
    ip: u64,
    req: &TableRequest,
    loaded: Option<BinarySymbolTable>,
) -> (f: Frame)
    requires
        old(usersyms).in_range(pid, ip),
        old(usersyms).expected_lookup(pid, ip) == UserLookup::NeedsTable(
            req.dev,
            req.inode,
            req.path@,
        ),
    ensures
        match loaded {
            Some(t) => {
                &&& f@ == user_frame(
                    lookup_first(
                        t.symbols(),
                        file_address(old(usersyms).mapping_of(pid, ip)->0, ip) as u64,
                    ),
                )
                &&& final(usersyms).table_for(req.dev, req.inode) == Some(t.symbols())
                &&& final(usersyms).table_keys() == old(usersyms).table_keys().push((req.dev, req.inode))
                &&& forall|d: u64, i: u64|
                    (d, i) != (req.dev, req.inode) ==> #[trigger] final(usersyms).table_for(d, i)
                        == old(usersyms).table_for(d, i)
                &&& forall|p: u32| #[trigger] final(usersyms).maps_for(p) == old(usersyms).maps_for(p)
            },
            None => f@ == FrameModel::Unknown && *final(usersyms) == *old(usersyms),
        },
{
    match loaded {
        None => Frame::Unknown,
        Some(t) => {
            proof {
                lemma_cached_table_listed(*usersyms, req.dev, req.inode);
            }
            usersyms.insert_table(req.dev, req.inode, t);
            match resolve_user(usersyms, pid, ip) {
                Ok(f) => f,
                Err(_) => Frame::Unknown,
            }
        },
    }
}

} // verus!
