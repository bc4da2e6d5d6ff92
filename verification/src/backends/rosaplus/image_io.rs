//! Writing and reading model files.

use vstd::prelude::*;
use crate::backends::rosaplus::wire;
use crate::backends::rosaplus::image;

use crate::backends::rosaplus::image::{FileHead, FileState, ImageModel, RosaImage};
use crate::backends::rosaplus::index::{edge_usize, node_usize, state_usize};
use crate::backends::rosaplus::nodes::{CountNode, LM_NODE_NONE};
use crate::backends::rosaplus::sam::{SamEdge, SAM_EDGE_NONE, SAM_STATE_NONE};
use crate::backends::rosaplus::tallies::LmState;
use crate::backends::rosaplus::wire::{put_list, take_list, ImageError, Wire};

verus! {

/// Appending front first and the rest later comes to the same.
proof fn lemma_append(out: Seq<u8>, u: Seq<u8>, t: Seq<u8>)
    ensures
        (out + u) + t == out + (u + t),
{
    assert((out + u) + t =~= out + (u + t));
}

/// Behind `u` comes `t`.
proof fn lemma_behind(bytes: Seq<u8>, pos: int, u: Seq<u8>, t: Seq<u8>)
    requires
        0 <= pos <= bytes.len(),
        bytes.skip(pos) == u + t,
    ensures
        pos + u.len() <= bytes.len(),
        bytes.skip(pos + u.len()) == t,
{
    assert(bytes.skip(pos).len() == bytes.len() - pos);
    assert(bytes.skip(pos + u.len()) =~= bytes.skip(pos).skip(u.len() as int));
    assert((u + t).skip(u.len() as int) =~= t);
}

/// Whether a model file can hold `x` and give it back.
pub open spec fn is_writable(x: ImageModel) -> bool {
    &&& wire::all_plain(x.st)
    &&& x.eot < 256
    &&& x.st.len() <= usize::MAX
    &&& x.ed.len() <= usize::MAX
    &&& x.text.len() < usize::MAX
    &&& x.nodes.len() <= usize::MAX
    &&& x.alphabet.len() <= u32::MAX
    &&& x.boundary_after.len() == x.text.len()
    &&& x.text_states.len() == x.text.len() + 1
    &&& x.unigram.len() == x.alphabet.len()
    &&& x.ls.len() == x.st.len()
    &&& image::sam_fault(x) is None
    &&& image::lm_fault(x) is None
}

proof fn lemma_lm_round_trip(bytes: Seq<u8>, pos: int, x: ImageModel, y: ImageModel, rest: Seq<u8>)
    requires
        is_writable(x),
        0 <= pos <= bytes.len(),
        bytes.skip(pos) == image::lm_wire(x, rest),
        y == (ImageModel {
            total_uni: y.total_uni,
            alphabet: y.alphabet,
            unigram: y.unigram,
            ls: y.ls,
            nodes: y.nodes,
            ..x
        }),
    ensures
        image::lm_at(bytes, pos, y) == Ok::<ImageModel, ImageError>(x),
{
    let h = (x.alphabet.len() as u32, (x.total_uni, x.nodes.len() as u64));
    let t4 = wire::list_wire(x.nodes) + rest;
    let t3 = wire::list_wire(x.ls) + t4;
    let t2 = wire::list_wire(x.unigram) + t3;
    let t1 = wire::list_wire(x.alphabet) + t2;
    h.lemma_front_of_wire(t1);
    lemma_behind(bytes, pos, h.wire(), t1);
    let p1 = pos + h.wire().len();
    assert(wire::all_plain(x.alphabet));
    wire::lemma_list_front_of_wire(x.alphabet, t2);
    lemma_behind(bytes, p1, wire::list_wire(x.alphabet), t2);
    let p2 = p1 + wire::list_wire(x.alphabet).len();
    assert(wire::all_plain(x.unigram));
    wire::lemma_list_front_of_wire(x.unigram, t3);
    lemma_behind(bytes, p2, wire::list_wire(x.unigram), t3);
    let p3 = p2 + wire::list_wire(x.unigram).len();
    assert(wire::all_plain(x.ls));
    wire::lemma_list_front_of_wire(x.ls, t4);
    lemma_behind(bytes, p3, wire::list_wire(x.ls), t4);
    assert(wire::all_plain(x.nodes));
    wire::lemma_list_front_of_wire(x.nodes, rest);
}

/// A model file gives back what was written into it, whatever follows it.
pub proof fn law_image_round_trip(x: ImageModel, rest: Seq<u8>)
    requires
        is_writable(x),
    ensures
        image::decoded(image::image_wire(x, rest)) == Ok::<ImageModel, ImageError>(x),
{
    let bytes = image::image_wire(x, rest);
    let h = image::head_of(x);
    let lm = image::lm_wire(x, rest);
    let cursor = (x.last, x.text_states.len() as u64);
    let t6 = wire::list_wire(x.text_states) + lm;
    let t5 = cursor.wire() + t6;
    let t4 = wire::list_wire(x.boundary_after) + t5;
    let t3 = wire::list_wire(x.text) + t4;
    let t2 = wire::list_wire(x.ed) + t3;
    let t1 = wire::list_wire(x.st) + t2;
    assert(bytes.take(11) =~= image::file_magic());
    assert(bytes.skip(11) =~= h.wire() + t1);
    h.lemma_front_of_wire(t1);
    lemma_behind(bytes, 11, h.wire(), t1);
    let p0 = 11 + h.wire().len() as int;
    wire::lemma_list_front_of_wire(x.st, t2);
    lemma_behind(bytes, p0, wire::list_wire(x.st), t2);
    let p1 = p0 + wire::list_wire(x.st).len();
    assert(wire::all_plain(x.ed));
    wire::lemma_list_front_of_wire(x.ed, t3);
    lemma_behind(bytes, p1, wire::list_wire(x.ed), t3);
    let p2 = p1 + wire::list_wire(x.ed).len();
    assert(wire::all_plain(x.text));
    wire::lemma_list_front_of_wire(x.text, t4);
    lemma_behind(bytes, p2, wire::list_wire(x.text), t4);
    let p3 = p2 + wire::list_wire(x.text).len();
    assert(wire::all_plain(x.boundary_after));
    wire::lemma_list_front_of_wire(x.boundary_after, t5);
    lemma_behind(bytes, p3, wire::list_wire(x.boundary_after), t5);
    let p4 = p3 + wire::list_wire(x.boundary_after).len();
    cursor.lemma_front_of_wire(t6);
    lemma_behind(bytes, p4, cursor.wire(), t6);
    let p5 = p4 + cursor.wire().len();
    assert(wire::all_plain(x.text_states));
    wire::lemma_list_front_of_wire(x.text_states, lm);
    lemma_behind(bytes, p5, wire::list_wire(x.text_states), lm);
    let p6 = p5 + wire::list_wire(x.text_states).len();
    let e = x.eot;
    assert(e < 256 ==> (e as u8) as u32 == e) by (bit_vector);
    let blank = image::blank_image(x.max_order, x.use_eot, x.eot, x.seed);
    let y = ImageModel {
        st: x.st,
        ed: x.ed,
        text: x.text,
        boundary_after: x.boundary_after,
        last: x.last,
        text_states: x.text_states,
        ..blank
    };
    assert(image::sam_fault(y) == image::sam_fault(x));
    lemma_lm_round_trip(bytes, p6, x, y, rest);
}

/// First bytes of a model file.
fn magic_bytes() -> (magic: Vec<u8>)
    ensures
        magic@ == image::file_magic(),
{
    let mut magic: Vec<u8> = Vec::new();
    magic.push(114);
    magic.push(111);
    magic.push(115);
    magic.push(97);
    magic.push(95);
    magic.push(112);
    magic.push(98);
    magic.push(95);
    magic.push(118);
    magic.push(53);
    magic.push(0);
    proof {
        assert(magic@ =~= image::file_magic());
    }
    magic
}

/// Whether an inline edge of `s` leads nowhere.
fn slots_bad(s: &FileState, st_n: usize) -> (bad: bool)
    requires
        s.small_n <= 4,
    ensures
        bad == image::slot_fault(*s, st_n as int, 0),
{
    let mut k: usize = 0;
    while k < s.small_n as usize
        invariant
            k <= s.small_n <= 4,
            image::slot_fault(*s, st_n as int, 0) == image::slot_fault(*s, st_n as int, k as int),
        decreases s.small_n - k,
    {
        let to: i32 = s.edge(k).1;
        if to < 0 || to as usize >= st_n {
            return true;
        }
        k += 1;
    }
    false
}

fn check_sam(x: &RosaImage) -> (r: Option<ImageError>)
    requires
        forall|i: int| 0 <= i < x.st@.len() ==> (#[trigger] x.st@[i]).small_n <= 4,
    ensures
        r == image::sam_fault(x@),
{
    let st_n: usize = x.st.len();
    let ed_n: usize = x.ed.len();
    let mut i: usize = 0;
    while i < x.text_states.len()
        invariant
            i <= x.text_states@.len(),
            st_n == x.st@.len(),
            forall|j: int|
                0 <= j < i ==> !image::bad_state(#[trigger] x.text_states@[j], st_n as int),
        decreases x.text_states@.len() - i,
    {
        let v: i32 = x.text_states[i];
        if v < 0 || v as usize >= st_n {
            proof {
                assert(image::bad_state(x@.text_states[i as int], st_n as int));
            }
            return Some(ImageError::BadTextStatesEntry);
        }
        i += 1;
    }
    if x.last < 0 || x.last as usize >= st_n {
        return Some(ImageError::BadLast);
    }
    let mut i: usize = 0;
    while i < st_n
        invariant
            i <= st_n == x.st@.len(),
            ed_n == x.ed@.len(),
            forall|j: int| 0 <= j < x.st@.len() ==> (#[trigger] x.st@[j]).small_n <= 4,
            image::states_fault(x.st@, ed_n as int, 0) == image::states_fault(x.st@, ed_n as int, i as int),
            !(exists|j: int|
                0 <= j < x@.text_states.len() && image::bad_state(
                    #[trigger] x@.text_states[j],
                    x@.st.len() as int,
                )),
            !image::bad_state(x@.last, x@.st.len() as int),
        decreases st_n - i,
    {
        let s = x.st[i];
        if s.link != SAM_STATE_NONE && (s.link < 0 || state_usize(s.link) >= st_n) {
            return Some(ImageError::BadLink);
        }
        if slots_bad(&s, st_n) {
            return Some(ImageError::BadSmallEdge);
        }
        if s.head != SAM_EDGE_NONE && edge_usize(s.head) >= ed_n {
            return Some(ImageError::BadEdgeHead);
        }
        i += 1;
    }
    let mut i: usize = 0;
    while i < ed_n
        invariant
            i <= ed_n == x.ed@.len(),
            st_n == x.st@.len(),
            image::edges_fault(x.ed@, st_n as int, 0) == image::edges_fault(x.ed@, st_n as int, i as int),
            image::states_fault(x.st@, ed_n as int, 0) is None,
            !(exists|j: int|
                0 <= j < x@.text_states.len() && image::bad_state(
                    #[trigger] x@.text_states[j],
                    x@.st.len() as int,
                )),
            !image::bad_state(x@.last, x@.st.len() as int),
        decreases ed_n - i,
    {
        let e = x.ed[i];
        if e.to < 0 || state_usize(e.to) >= st_n {
            return Some(ImageError::BadEdgeTarget);
        }
        if e.next != SAM_EDGE_NONE && edge_usize(e.next) >= ed_n {
            return Some(ImageError::BadEdgeNext);
        }
        i += 1;
    }
    None
}

fn check_lm(x: &RosaImage) -> (r: Option<ImageError>)
    ensures
        r == image::lm_fault(x@),
{
    let nodes_n: usize = x.nodes.len();
    let mut i: usize = 0;
    while i < x.ls.len()
        invariant
            i <= x.ls@.len(),
            nodes_n == x.nodes@.len(),
            image::records_fault(x.ls@, nodes_n as int, 0) == image::records_fault(
                x.ls@,
                nodes_n as int,
                i as int,
            ),
        decreases x.ls@.len() - i,
    {
        let s = x.ls[i];
        if s.head != LM_NODE_NONE && node_usize(s.head) >= nodes_n {
            return Some(ImageError::BadLmHead);
        }
        if s.last_node != LM_NODE_NONE && node_usize(s.last_node) >= nodes_n {
            return Some(ImageError::BadLmLastNode);
        }
        i += 1;
    }
    let mut i: usize = 0;
    while i < nodes_n
        invariant
            i <= nodes_n == x.nodes@.len(),
            image::records_fault(x.ls@, nodes_n as int, 0) is None,
            forall|j: int|
                0 <= j < i ==> (#[trigger] x.nodes@[j]).next == LM_NODE_NONE || x.nodes@[j].next
                    < nodes_n,
        decreases nodes_n - i,
    {
        let node = x.nodes[i];
        if node.next != LM_NODE_NONE && node_usize(node.next) >= nodes_n {
            proof {
                assert(x@.nodes[i as int].next != LM_NODE_NONE);
            }
            return Some(ImageError::BadLmNext);
        }
        i += 1;
    }
    None
}

proof fn lemma_small_n_front(s: Seq<u8>, n: nat)
    ensures
        wire::list_front::<FileState>(s, n) matches Ok((vs, k)) ==> forall|i: int|
            0 <= i < vs.len() ==> (#[trigger] vs[i]).small_n <= 4,
    decreases n,
{
    if n > 0 {
        lemma_small_n_front(s, (n - 1) as nat);
    }
}

impl RosaImage {
    /// The bytes of a model file.
    pub fn encode(&self) -> (bytes: Vec<u8>)
        requires
            self.alphabet@.len() <= u32::MAX,
        ensures
            bytes@ == image::image_bytes(self@),
    {
        let ghost x = self@;
        let ghost none: Seq<u8> = Seq::empty();
        let ghost goal = image::image_bytes(x);
        let mut out: Vec<u8> = magic_bytes();
        let eot_flag: i32 = if self.use_eot {
            1
        } else {
            0
        };
        let head: FileHead = (
            self.max_order,
            (
                eot_flag,
                (
                    self.eot,
                    (
                        self.seed,
                        (self.st.len() as u64, (self.ed.len() as u64, self.text.len() as u64)),
                    ),
                ),
            ),
        );
        let ghost t0 = image::sam_wire(x, image::lm_wire(x, none));
        proof {
            lemma_append(image::file_magic(), head.wire(), t0);
            assert(head == image::head_of(x));
        }
        head.put(&mut out);
        assert(out@ + t0 == goal);
        let ghost l0 = image::lm_wire(x, none);
        let cursor: (i32, u64) = (self.last, self.text_states.len() as u64);
        let ghost t6 = wire::list_wire(x.text_states) + l0;
        let ghost t5 = cursor.wire() + t6;
        let ghost t4 = wire::list_wire(x.boundary_after) + t5;
        let ghost t3 = wire::list_wire(x.text) + t4;
        let ghost t2 = wire::list_wire(x.ed) + t3;
        proof {
            lemma_append(out@, wire::list_wire(x.st), t2);
        }
        put_list(&self.st, &mut out);
        assert(out@ + t2 == goal);
        proof {
            lemma_append(out@, wire::list_wire(x.ed), t3);
        }
        put_list(&self.ed, &mut out);
        assert(out@ + t3 == goal);
        proof {
            lemma_append(out@, wire::list_wire(x.text), t4);
        }
        put_list(&self.text, &mut out);
        assert(out@ + t4 == goal);
        proof {
            lemma_append(out@, wire::list_wire(x.boundary_after), t5);
        }
        put_list(&self.boundary_after, &mut out);
        assert(out@ + t5 == goal);
        proof {
            lemma_append(out@, cursor.wire(), t6);
        }
        cursor.put(&mut out);
        assert(out@ + t6 == goal);
        proof {
            lemma_append(out@, wire::list_wire(x.text_states), l0);
        }
        put_list(&self.text_states, &mut out);
        assert(out@ + l0 == goal);
        let lm_head: (u32, (u64, u64)) = (
            self.alphabet.len() as u32,
            (self.total_uni, self.nodes.len() as u64),
        );
        let ghost l4 = wire::list_wire(x.nodes) + none;
        let ghost l3 = wire::list_wire(x.ls) + l4;
        let ghost l2 = wire::list_wire(x.unigram) + l3;
        let ghost l1 = wire::list_wire(x.alphabet) + l2;
        proof {
            lemma_append(out@, lm_head.wire(), l1);
        }
        lm_head.put(&mut out);
        assert(out@ + l1 == goal);
        proof {
            lemma_append(out@, wire::list_wire(x.alphabet), l2);
        }
        put_list(&self.alphabet, &mut out);
        assert(out@ + l2 == goal);
        proof {
            lemma_append(out@, wire::list_wire(x.unigram), l3);
        }
        put_list(&self.unigram, &mut out);
        assert(out@ + l3 == goal);
        proof {
            lemma_append(out@, wire::list_wire(x.ls), l4);
        }
        put_list(&self.ls, &mut out);
        assert(out@ + l4 == goal);
        proof {
            lemma_append(out@, wire::list_wire(x.nodes), none);
        }
        put_list(&self.nodes, &mut out);
        assert(out@ =~= out@ + none);
        out
    }

    /// Reads the language model at `pos`.
    fn decode_lm(self, bytes: &[u8], pos: usize) -> (r: Result<RosaImage, ImageError>)
        requires
            pos <= bytes@.len(),
        ensures
            match image::lm_at(bytes@, pos as int, self@) {
                Ok(x) => r matches Ok(y) && y@ == x,
                Err(e) => r matches Err(x) && x == e,
            },
    {
        let mut image = self;
        let ((alpha_n, (total_uni, nodes_n)), p1) = match <(u32, (u64, u64))>::take(bytes, pos) {
            Ok(x) => x,
            Err(e) => {
                return Err(e);
            },
        };
        if nodes_n > usize::MAX as u64 || alpha_n as u64 > usize::MAX as u64 {
            return Err(ImageError::LengthOverflow);
        }
        let (alphabet, p2) = match take_list::<u32>(bytes, p1, alpha_n as usize) {
            Ok(x) => x,
            Err(e) => {
                return Err(e);
            },
        };
        let (unigram, p3) = match take_list::<u64>(bytes, p2, alpha_n as usize) {
            Ok(x) => x,
            Err(e) => {
                return Err(e);
            },
        };
        let (ls, p4) = match take_list::<LmState>(bytes, p3, image.st.len()) {
            Ok(x) => x,
            Err(e) => {
                return Err(e);
            },
        };
        let (nodes, p5) = match take_list::<CountNode>(bytes, p4, nodes_n as usize) {
            Ok(x) => x,
            Err(e) => {
                return Err(e);
            },
        };
        image.total_uni = total_uni;
        image.alphabet = alphabet;
        image.unigram = unigram;
        image.ls = ls;
        image.nodes = nodes;
        match check_lm(&image) {
            Some(e) => Err(e),
            None => Ok(image),
        }
    }

    /// Reads a model file.
    pub fn decode(bytes: &[u8]) -> (r: Result<RosaImage, ImageError>)
        ensures
            match image::decoded(bytes@) {
                Ok(x) => r matches Ok(y) && y@ == x,
                Err(e) => r matches Err(x) && x == e,
            },
    {
        if bytes.len() < 11 {
            return Err(ImageError::UnexpectedEnd);
        }
        let magic = magic_bytes();
        let mut i: usize = 0;
        while i < 11
            invariant
                i <= 11,
                bytes@.len() >= 11,
                magic@ == image::file_magic(),
                forall|j: int| 0 <= j < i ==> #[trigger] bytes@[j] == magic@[j],
            decreases 11 - i,
        {
            if bytes[i] != magic[i] {
                proof {
                    assert(bytes@.take(11)[i as int] != image::file_magic()[i as int]);
                }
                return Err(ImageError::BadMagic);
            }
            i += 1;
        }
        proof {
            assert(bytes@.take(11) =~= image::file_magic());
        }
        let ((max_order, (use_eot, (eot, (seed, (st_n, (ed_n, text_n)))))), p0) =
            match FileHead::take(bytes, 11) {
            Ok(x) => x,
            Err(e) => {
                return Err(e);
            },
        };
        if st_n > usize::MAX as u64 || ed_n > usize::MAX as u64 || text_n >= usize::MAX as u64 {
            return Err(ImageError::LengthOverflow);
        }
        let (st, p1) = match take_list::<FileState>(bytes, p0, st_n as usize) {
            Ok(x) => x,
            Err(e) => {
                return Err(e);
            },
        };
        proof {
            lemma_small_n_front(bytes@.skip(p0 as int), st_n as nat);
            wire::lemma_list_front_len::<FileState>(bytes@.skip(p0 as int), st_n as nat);
        }
        let (ed, p2) = match take_list::<SamEdge>(bytes, p1, ed_n as usize) {
            Ok(x) => x,
            Err(e) => {
                return Err(e);
            },
        };
        let (text, p3) = match take_list::<u32>(bytes, p2, text_n as usize) {
            Ok(x) => x,
            Err(e) => {
                return Err(e);
            },
        };
        proof {
            wire::lemma_list_front_len::<u32>(bytes@.skip(p2 as int), text_n as nat);
        }
        let (boundary_after, p4) = match take_list::<u8>(bytes, p3, text_n as usize) {
            Ok(x) => x,
            Err(e) => {
                return Err(e);
            },
        };
        let ((last, states_n), p5) = match <(i32, u64)>::take(bytes, p4) {
            Ok(x) => x,
            Err(e) => {
                return Err(e);
            },
        };
        if states_n != text_n + 1 {
            return Err(ImageError::BadTextStatesLen);
        }
        let (text_states, p6) = match take_list::<i32>(bytes, p5, states_n as usize) {
            Ok(x) => x,
            Err(e) => {
                return Err(e);
            },
        };
        let image = RosaImage {
            max_order,
            use_eot: use_eot != 0,
            eot: (eot as u8) as u32,
            seed,
            st,
            ed,
            text,
            boundary_after,
            last,
            text_states,
            total_uni: 0,
            alphabet: Vec::new(),
            unigram: Vec::new(),
            ls: Vec::new(),
            nodes: Vec::new(),
        };
        match check_sam(&image) {
            Some(e) => Err(e),
            None => image.decode_lm(bytes, p6),
        }
    }
}

impl ImageError {
    /// What to tell the user.
    pub fn message(&self) -> (text: String)
        ensures
            text@ == (match self {
                ImageError::UnexpectedEnd => "failed to fill whole buffer"@,
                ImageError::BadMagic => "bad magic or unsupported ROSA+ model version"@,
                ImageError::LengthOverflow => "length overflow"@,
                ImageError::BadSmallN => "bad small_n"@,
                ImageError::BadTextStatesLen => "bad text_states len"@,
                ImageError::BadTextStatesEntry => "bad text_states entry"@,
                ImageError::BadLast => "bad sam.last"@,
                ImageError::BadLink => "bad sam link"@,
                ImageError::BadSmallEdge => "bad sam small edge"@,
                ImageError::BadEdgeHead => "bad sam edge head"@,
                ImageError::BadEdgeTarget => "bad sam edge target"@,
                ImageError::BadEdgeNext => "bad sam edge next"@,
                ImageError::BadLmHead => "bad lm head"@,
                ImageError::BadLmLastNode => "bad lm last_node"@,
                ImageError::BadLmNext => "bad lm next"@,
            }),
    {
        match self {
            ImageError::UnexpectedEnd => "failed to fill whole buffer".to_string(),
            ImageError::BadMagic => "bad magic or unsupported ROSA+ model version".to_string(),
            ImageError::LengthOverflow => "length overflow".to_string(),
            ImageError::BadSmallN => "bad small_n".to_string(),
            ImageError::BadTextStatesLen => "bad text_states len".to_string(),
            ImageError::BadTextStatesEntry => "bad text_states entry".to_string(),
            ImageError::BadLast => "bad sam.last".to_string(),
            ImageError::BadLink => "bad sam link".to_string(),
            ImageError::BadSmallEdge => "bad sam small edge".to_string(),
            ImageError::BadEdgeHead => "bad sam edge head".to_string(),
            ImageError::BadEdgeTarget => "bad sam edge target".to_string(),
            ImageError::BadEdgeNext => "bad sam edge next".to_string(),
            ImageError::BadLmHead => "bad lm head".to_string(),
            ImageError::BadLmLastNode => "bad lm last_node".to_string(),
            ImageError::BadLmNext => "bad lm next".to_string(),
        }
    }
}

} // verus!
