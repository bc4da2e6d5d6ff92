//! The model file as bytes.

use vstd::prelude::*;
use crate::backends::rosaplus::wire;

use crate::backends::rosaplus::nodes::{CountNode, LM_NODE_NONE};
use crate::backends::rosaplus::sam::{SamEdge, SAM_EDGE_NONE, SAM_STATE_NONE};
use crate::backends::rosaplus::tallies::LmState;
use crate::backends::rosaplus::wire::{put_list, take_list, ImageError, Wire};

verus! {

/// A state as it stands in the model file: the slots in use, then zeros.
#[derive(Clone, Copy, Debug, PartialEq, Eq)]
pub struct FileState {
    pub link: i32,
    pub len: i32,
    pub endpos: i32,
    pub small_n: u32,
    pub e0: (u32, i32),
    pub e1: (u32, i32),
    pub e2: (u32, i32),
    pub e3: (u32, i32),
    pub head: u32,
}

/// Inline edge `i` of a state.
pub open spec fn slot(s: FileState, i: int) -> (u32, i32) {
    if i == 0 {
        s.e0
    } else if i == 1 {
        s.e1
    } else if i == 2 {
        s.e2
    } else {
        s.e3
    }
}

/// Inline edges in use.
pub open spec fn slots(s: FileState) -> Seq<(u32, i32)> {
    Seq::new(s.small_n as nat, |i: int| slot(s, i))
}

/// Entry `i` of `es`, or zeros behind its end.
pub open spec fn slot_or_zero(es: Seq<(u32, i32)>, i: int) -> (u32, i32) {
    if i < es.len() {
        es[i]
    } else {
        (0u32, 0i32)
    }
}

impl FileState {
    /// Inline edge `i`.
    pub fn edge(&self, i: usize) -> (e: (u32, i32))
        ensures
            e == slot(*self, i as int),
    {
        if i == 0 {
            self.e0
        } else if i == 1 {
            self.e1
        } else if i == 2 {
            self.e2
        } else {
            self.e3
        }
    }
}

impl Wire for FileState {
    open spec fn wire(&self) -> Seq<u8> {
        (self.link, (self.len, (self.endpos, self.small_n))).wire() + (wire::list_wire(slots(*self))
            + self.head.wire())
    }

    open spec fn front(s: Seq<u8>) -> Result<(FileState, int), ImageError> {
        match <(i32, (i32, (i32, u32)))>::front(s) {
            Err(e) => Err(e),
            Ok(((link, (len, (endpos, small_n))), i)) => if small_n > 4 {
                Err(ImageError::BadSmallN)
            } else {
                match wire::list_front::<(u32, i32)>(s.skip(i), small_n as nat) {
                    Err(e) => Err(e),
                    Ok((es, j)) => match u32::front(s.skip(i + j)) {
                        Err(e) => Err(e),
                        Ok((head, k)) => Ok(
                            (
                                FileState {
                                    link,
                                    len,
                                    endpos,
                                    small_n,
                                    e0: slot_or_zero(es, 0),
                                    e1: slot_or_zero(es, 1),
                                    e2: slot_or_zero(es, 2),
                                    e3: slot_or_zero(es, 3),
                                    head,
                                },
                                i + j + k,
                            ),
                        ),
                    },
                }
            },
        }
    }

    open spec fn is_plain(&self) -> bool {
        &&& self.small_n <= 4
        &&& forall|i: int| self.small_n <= i < 4 ==> #[trigger] slot(*self, i) == (0u32, 0i32)
    }

    proof fn lemma_front_of_wire(&self, rest: Seq<u8>) {
        let a = (self.link, (self.len, (self.endpos, self.small_n)));
        let es = slots(*self);
        let b = wire::list_wire(es);
        let c = self.head.wire();
        let s = self.wire() + rest;
        a.lemma_front_of_wire(b + (c + rest));
        assert(s =~= a.wire() + (b + (c + rest)));
        let i = a.wire().len() as int;
        assert(s.skip(i) =~= b + (c + rest));
        assert(wire::all_plain(es));
        wire::lemma_list_front_of_wire(es, c + rest);
        let j = b.len() as int;
        assert(s.skip(i + j) =~= c + rest);
        self.head.lemma_front_of_wire(rest);
        assert(slot(*self, 0) == slot_or_zero(es, 0));
        assert(slot(*self, 1) == slot_or_zero(es, 1));
        assert(slot(*self, 2) == slot_or_zero(es, 2));
        assert(slot(*self, 3) == slot_or_zero(es, 3));
    }

    proof fn lemma_front_len(s: Seq<u8>) {
        <(i32, (i32, (i32, u32)))>::lemma_front_len(s);
        if let Ok(((link, (len, (endpos, small_n))), i)) = <(i32, (i32, (i32, u32)))>::front(s) {
            wire::lemma_list_front_len::<(u32, i32)>(s.skip(i), small_n as nat);
        }
    }

    fn put(&self, out: &mut Vec<u8>) {
        (self.link, (self.len, (self.endpos, self.small_n))).put(out);
        let mut es: Vec<(u32, i32)> = Vec::new();
        while (es.len() as u32) < self.small_n && es.len() < 4
            invariant
                es@.len() <= 4,
                es@.len() <= self.small_n,
                forall|i: int| 0 <= i < es@.len() ==> #[trigger] es@[i] == slot(*self, i),
            decreases 4 - es@.len(),
        {
            let i: usize = es.len();
            es.push(self.edge(i));
        }
        while (es.len() as u64) < self.small_n as u64
            invariant
                es@.len() <= self.small_n,
                self.small_n < 4 ==> es@.len() == self.small_n,
                es@.len() >= 4 || es@.len() == self.small_n,
                forall|i: int| 0 <= i < es@.len() ==> #[trigger] es@[i] == slot(*self, i),
            decreases self.small_n - es@.len(),
        {
            es.push(self.e3);
        }
        proof {
            assert(es@ =~= slots(*self));
        }
        put_list(&es, out);
        self.head.put(out);
        proof {
            assert(out@ =~= old(out)@ + self.wire());
        }
    }

    fn take(bytes: &[u8], pos: usize) -> (r: Result<(FileState, usize), ImageError>) {
        let ghost s = bytes@.skip(pos as int);
        proof {
            <(i32, (i32, (i32, u32)))>::lemma_front_len(s);
        }
        match <(i32, (i32, (i32, u32)))>::take(bytes, pos) {
            Err(e) => Err(e),
            Ok(((link, (len, (endpos, small_n))), p1)) => {
                if small_n > 4 {
                    return Err(ImageError::BadSmallN);
                }
                proof {
                    assert(s.skip(p1 - pos) =~= bytes@.skip(p1 as int));
                    wire::lemma_list_front_len::<(u32, i32)>(bytes@.skip(p1 as int), small_n as nat);
                }
                match take_list::<(u32, i32)>(bytes, p1, small_n as usize) {
                    Err(e) => Err(e),
                    Ok((es, p2)) => {
                        proof {
                            assert(s.skip(p2 - pos) =~= bytes@.skip(p2 as int));
                        }
                        match u32::take(bytes, p2) {
                            Err(e) => Err(e),
                            Ok((head, p3)) => {
                                let n: usize = es.len();
                                let zero: (u32, i32) = (0, 0);
                                let state = FileState {
                                    link,
                                    len,
                                    endpos,
                                    small_n,
                                    e0: if n > 0 {
                                        es[0]
                                    } else {
                                        zero
                                    },
                                    e1: if n > 1 {
                                        es[1]
                                    } else {
                                        zero
                                    },
                                    e2: if n > 2 {
                                        es[2]
                                    } else {
                                        zero
                                    },
                                    e3: if n > 3 {
                                        es[3]
                                    } else {
                                        zero
                                    },
                                    head,
                                };
                                Ok((state, p3))
                            },
                        }
                    },
                }
            },
        }
    }
}

/// Settings and sizes at the front of the file.
pub type FileHead = (i64, (i32, (u32, (u64, (u64, (u64, u64))))));

/// Everything in a model file.
pub struct RosaImage {
    pub max_order: i64,
    pub use_eot: bool,
    pub eot: u32,
    pub seed: u64,
    pub st: Vec<FileState>,
    pub ed: Vec<SamEdge>,
    pub text: Vec<u32>,
    pub boundary_after: Vec<u8>,
    pub last: i32,
    pub text_states: Vec<i32>,
    pub total_uni: u64,
    pub alphabet: Vec<u32>,
    pub unigram: Vec<u64>,
    pub ls: Vec<LmState>,
    pub nodes: Vec<CountNode>,
}

/// Everything in a model file, as a mathematical object.
#[verifier::ext_equal]
pub struct ImageModel {
    pub max_order: i64,
    pub use_eot: bool,
    pub eot: u32,
    pub seed: u64,
    pub st: Seq<FileState>,
    pub ed: Seq<SamEdge>,
    pub text: Seq<u32>,
    pub boundary_after: Seq<u8>,
    pub last: i32,
    pub text_states: Seq<i32>,
    pub total_uni: u64,
    pub alphabet: Seq<u32>,
    pub unigram: Seq<u64>,
    pub ls: Seq<LmState>,
    pub nodes: Seq<CountNode>,
}

impl View for RosaImage {
    type V = ImageModel;

    open spec fn view(&self) -> ImageModel {
        ImageModel {
            max_order: self.max_order,
            use_eot: self.use_eot,
            eot: self.eot,
            seed: self.seed,
            st: self.st@,
            ed: self.ed@,
            text: self.text@,
            boundary_after: self.boundary_after@,
            last: self.last,
            text_states: self.text_states@,
            total_uni: self.total_uni,
            alphabet: self.alphabet@,
            unigram: self.unigram@,
            ls: self.ls@,
            nodes: self.nodes@,
        }
    }
}

/// First bytes of a model file.
pub open spec fn file_magic() -> Seq<u8> {
    seq![114u8, 111, 115, 97, 95, 112, 98, 95, 118, 53, 0]
}

pub open spec fn head_of(x: ImageModel) -> FileHead {
    (
        x.max_order,
        (
            if x.use_eot {
                1i32
            } else {
                0i32
            },
            (x.eot, (x.seed, (x.st.len() as u64, (x.ed.len() as u64, x.text.len() as u64)))),
        ),
    )
}

/// Bytes of the language model, then `rest`.
pub open spec fn lm_wire(x: ImageModel, rest: Seq<u8>) -> Seq<u8> {
    (x.alphabet.len() as u32, (x.total_uni, x.nodes.len() as u64)).wire() + (wire::list_wire(x.alphabet)
        + (wire::list_wire(x.unigram) + (wire::list_wire(x.ls) + (wire::list_wire(x.nodes) + rest))))
}

/// Bytes of the automaton, then `rest`.
pub open spec fn sam_wire(x: ImageModel, rest: Seq<u8>) -> Seq<u8> {
    wire::list_wire(x.st) + (wire::list_wire(x.ed) + (wire::list_wire(x.text) + (wire::list_wire(x.boundary_after) + ((
    x.last,
    x.text_states.len() as u64,
).wire() + (wire::list_wire(x.text_states) + rest)))))
}

/// Bytes of a model file, then `rest`.
pub open spec fn image_wire(x: ImageModel, rest: Seq<u8>) -> Seq<u8> {
    file_magic() + (head_of(x).wire() + sam_wire(x, lm_wire(x, rest)))
}

/// Bytes of a model file.
pub open spec fn image_bytes(x: ImageModel) -> Seq<u8> {
    image_wire(x, Seq::empty())
}

// ---------------------------------------------------------------------------------------
// Faults
// ---------------------------------------------------------------------------------------

/// Whether `v` is not the number of one of `n` states.
pub open spec fn bad_state(v: i32, n: int) -> bool {
    v < 0 || v >= n
}

/// First inline edge from `k` on that leads nowhere.
pub open spec fn slot_fault(s: FileState, st_n: int, k: int) -> bool
    decreases s.small_n - k,
{
    k < s.small_n && (bad_state(slot(s, k).1, st_n) || slot_fault(s, st_n, k + 1))
}

/// What is wrong with one state.
pub open spec fn state_fault(s: FileState, st_n: int, ed_n: int) -> Option<ImageError> {
    if s.link != SAM_STATE_NONE && bad_state(s.link, st_n) {
        Some(ImageError::BadLink)
    } else if slot_fault(s, st_n, 0) {
        Some(ImageError::BadSmallEdge)
    } else if s.head != SAM_EDGE_NONE && s.head >= ed_n {
        Some(ImageError::BadEdgeHead)
    } else {
        None
    }
}

/// First thing that is wrong with the states from `i` on.
pub open spec fn states_fault(st: Seq<FileState>, ed_n: int, i: int) -> Option<ImageError>
    decreases st.len() - i,
{
    if i < 0 || i >= st.len() {
        None
    } else {
        match state_fault(st[i], st.len() as int, ed_n) {
            Some(e) => Some(e),
            None => states_fault(st, ed_n, i + 1),
        }
    }
}

/// First thing that is wrong with the edges from `i` on.
pub open spec fn edges_fault(ed: Seq<SamEdge>, st_n: int, i: int) -> Option<ImageError>
    decreases ed.len() - i,
{
    if i < 0 || i >= ed.len() {
        None
    } else if bad_state(ed[i].to, st_n) {
        Some(ImageError::BadEdgeTarget)
    } else if ed[i].next != SAM_EDGE_NONE && ed[i].next >= ed.len() {
        Some(ImageError::BadEdgeNext)
    } else {
        edges_fault(ed, st_n, i + 1)
    }
}

/// First thing that is wrong with the automaton.
pub open spec fn sam_fault(x: ImageModel) -> Option<ImageError> {
    if exists|i: int|
        0 <= i < x.text_states.len() && bad_state(
            #[trigger] x.text_states[i],
            x.st.len() as int,
        ) {
        Some(ImageError::BadTextStatesEntry)
    } else if bad_state(x.last, x.st.len() as int) {
        Some(ImageError::BadLast)
    } else {
        match states_fault(x.st, x.ed.len() as int, 0) {
            Some(e) => Some(e),
            None => edges_fault(x.ed, x.st.len() as int, 0),
        }
    }
}

/// First thing that is wrong with the records from `i` on.
pub open spec fn records_fault(ls: Seq<LmState>, nodes_n: int, i: int) -> Option<ImageError>
    decreases ls.len() - i,
{
    if i < 0 || i >= ls.len() {
        None
    } else if ls[i].head != LM_NODE_NONE && ls[i].head >= nodes_n {
        Some(ImageError::BadLmHead)
    } else if ls[i].last_node != LM_NODE_NONE && ls[i].last_node >= nodes_n {
        Some(ImageError::BadLmLastNode)
    } else {
        records_fault(ls, nodes_n, i + 1)
    }
}

/// First thing that is wrong with the language model.
pub open spec fn lm_fault(x: ImageModel) -> Option<ImageError> {
    match records_fault(x.ls, x.nodes.len() as int, 0) {
        Some(e) => Some(e),
        None => if exists|i: int|
            0 <= i < x.nodes.len() && (#[trigger] x.nodes[i]).next != LM_NODE_NONE
                && x.nodes[i].next >= x.nodes.len() {
            Some(ImageError::BadLmNext)
        } else {
            None
        },
    }
}

// ---------------------------------------------------------------------------------------
// Reading
// ---------------------------------------------------------------------------------------

/// The language model at `pos`, read into `x`.
pub open spec fn lm_at(bytes: Seq<u8>, pos: int, x: ImageModel) -> Result<ImageModel, ImageError> {
    match <(u32, (u64, u64))>::front(bytes.skip(pos)) {
        Err(e) => Err(e),
        Ok(((alpha_n, (total_uni, nodes_n)), k0)) => if nodes_n > usize::MAX || alpha_n
            > usize::MAX {
            Err(ImageError::LengthOverflow)
        } else {
            let p1 = pos + k0;
            match wire::list_front::<u32>(bytes.skip(p1), alpha_n as nat) {
                Err(e) => Err(e),
                Ok((alphabet, k1)) => {
                    let p2 = p1 + k1;
                    match wire::list_front::<u64>(bytes.skip(p2), alpha_n as nat) {
                        Err(e) => Err(e),
                        Ok((unigram, k2)) => {
                            let p3 = p2 + k2;
                            match wire::list_front::<LmState>(bytes.skip(p3), x.st.len()) {
                                Err(e) => Err(e),
                                Ok((ls, k3)) => {
                                    let p4 = p3 + k3;
                                    match wire::list_front::<CountNode>(bytes.skip(p4), nodes_n as nat) {
                                        Err(e) => Err(e),
                                        Ok((nodes, k4)) => {
                                            let y = ImageModel {
                                                total_uni,
                                                alphabet,
                                                unigram,
                                                ls,
                                                nodes,
                                                ..x
                                            };
                                            match lm_fault(y) {
                                                Some(e) => Err(e),
                                                None => Ok(y),
                                            }
                                        },
                                    }
                                },
                            }
                        },
                    }
                },
            }
        },
    }
}

/// The cursor and the prefix states at `pos`, and all that follows, read into `x`.
pub open spec fn cursor_at(bytes: Seq<u8>, pos: int, x: ImageModel) -> Result<
    ImageModel,
    ImageError,
> {
    match <(i32, u64)>::front(bytes.skip(pos)) {
        Err(e) => Err(e),
        Ok(((last, states_n), k0)) => if states_n != x.text.len() + 1 {
            Err(ImageError::BadTextStatesLen)
        } else {
            let p1 = pos + k0;
            match wire::list_front::<i32>(bytes.skip(p1), states_n as nat) {
                Err(e) => Err(e),
                Ok((text_states, k1)) => {
                    let y = ImageModel { last, text_states, ..x };
                    match sam_fault(y) {
                        Some(e) => Err(e),
                        None => lm_at(bytes, p1 + k1, y),
                    }
                },
            }
        },
    }
}

/// The automaton at `pos`, and all that follows, read into `x`.
pub open spec fn sam_at(
    bytes: Seq<u8>,
    pos: int,
    x: ImageModel,
    st_n: nat,
    ed_n: nat,
    text_n: nat,
) -> Result<ImageModel, ImageError> {
    match wire::list_front::<FileState>(bytes.skip(pos), st_n) {
        Err(e) => Err(e),
        Ok((st, k0)) => {
            let p1 = pos + k0;
            match wire::list_front::<SamEdge>(bytes.skip(p1), ed_n) {
                Err(e) => Err(e),
                Ok((ed, k1)) => {
                    let p2 = p1 + k1;
                    match wire::list_front::<u32>(bytes.skip(p2), text_n) {
                        Err(e) => Err(e),
                        Ok((text, k2)) => {
                            let p3 = p2 + k2;
                            match wire::list_front::<u8>(bytes.skip(p3), text_n) {
                                Err(e) => Err(e),
                                Ok((boundary_after, k3)) => cursor_at(
                                    bytes,
                                    p3 + k3,
                                    ImageModel { st, ed, text, boundary_after, ..x },
                                ),
                            }
                        },
                    }
                },
            }
        },
    }
}

/// A model with the given settings and nothing in it.
pub open spec fn blank_image(max_order: i64, use_eot: bool, eot: u32, seed: u64) -> ImageModel {
    ImageModel {
        max_order,
        use_eot,
        eot,
        seed,
        st: Seq::empty(),
        ed: Seq::empty(),
        text: Seq::empty(),
        boundary_after: Seq::empty(),
        last: 0,
        text_states: Seq::empty(),
        total_uni: 0,
        alphabet: Seq::empty(),
        unigram: Seq::empty(),
        ls: Seq::empty(),
        nodes: Seq::empty(),
    }
}

/// What a model file holds.
pub open spec fn decoded(bytes: Seq<u8>) -> Result<ImageModel, ImageError> {
    if bytes.len() < 11 {
        Err(ImageError::UnexpectedEnd)
    } else if bytes.take(11) != file_magic() {
        Err(ImageError::BadMagic)
    } else {
        match FileHead::front(bytes.skip(11)) {
            Err(e) => Err(e),
            Ok(((max_order, (use_eot, (eot, (seed, (st_n, (ed_n, text_n)))))), k)) => if st_n
                > usize::MAX || ed_n > usize::MAX || text_n >= usize::MAX {
                Err(ImageError::LengthOverflow)
            } else {
                sam_at(
                    bytes,
                    11 + k,
                    blank_image(max_order, use_eot != 0, (eot as u8) as u32, seed),
                    st_n as nat,
                    ed_n as nat,
                    text_n as nat,
                )
            },
        }
    }
}

proof fn lemma_states_plain(s: Seq<u8>, n: nat)
    ensures
        wire::list_front::<FileState>(s, n) matches Ok((vs, k)) ==> wire::all_plain(vs),
    decreases n,
{
    if n > 0 {
        lemma_states_plain(s, (n - 1) as nat);
        if let Ok((vs, k)) = wire::list_front::<FileState>(s, (n - 1) as nat) {
            if let Ok((v, j)) = FileState::front(s.skip(k)) {
                lemma_state_plain(s.skip(k));
                let all = vs.push(v);
                assert forall|i: int| 0 <= i < all.len() implies (#[trigger] all[i]).is_plain() by {
                    if i < vs.len() {
                        assert(all[i] == vs[i]);
                    }
                }
            }
        }
    }
}

proof fn lemma_state_plain(s: Seq<u8>)
    ensures
        FileState::front(s) matches Ok((v, k)) ==> v.is_plain(),
{
    if let Ok(((link, (len, (endpos, small_n))), i)) = <(i32, (i32, (i32, u32)))>::front(s) {
        wire::lemma_list_front_len::<(u32, i32)>(s.skip(i), small_n as nat);
    }
}

/// Nothing stands in the unused places of what is read from bytes.
pub proof fn lemma_decoded_plain(bytes: Seq<u8>)
    ensures
        decoded(bytes) matches Ok(x) ==> wire::all_plain(x.st),
{
    if let Ok(((max_order, (use_eot, (eot, (seed, (st_n, (ed_n, text_n)))))), k)) = FileHead::front(
        bytes.skip(11),
    ) {
        lemma_states_plain(bytes.skip(11 + k), st_n as nat);
    }
}

} // verus!
