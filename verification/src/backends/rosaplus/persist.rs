//! Keeping a trained predictor as bytes.

use vstd::prelude::*;
use crate::backends::rosaplus::wire;
use crate::backends::rosaplus::caches;
use crate::backends::rosaplus::tallies;
use crate::backends::rosaplus::sam;
use crate::backends::rosaplus::model;
use crate::backends::rosaplus::lm;
use crate::backends::rosaplus::image_io;
use crate::backends::rosaplus::image;

use crate::backends::rosaplus::caches::{index_of_bytes, root_edges};
use crate::backends::rosaplus::image::{FileState, ImageModel, RosaImage};
use crate::backends::rosaplus::lm::LM;
use crate::backends::rosaplus::model::{RosaPlus, RosaSnapshot};
use crate::backends::rosaplus::nodes::{CountNode, LmNodes, LM_NODE_NONE};
use crate::backends::rosaplus::rng::{RngModel, RngStream, ROSA_RNG_START};
use crate::backends::rosaplus::sam::{Sam, SamEdge, SamSnapshot, SamState, SAM_EDGE_NONE};
use crate::backends::rosaplus::tallies::{LmState, Tallies};
use crate::backends::rosaplus::wire::{ImageError, Wire};

verus! {

/// Why a predictor cannot be kept.
#[derive(Clone, Copy, Debug, PartialEq, Eq, Structural)]
pub enum SaveError {
    LmNotBuilt,
    TextStatesMismatch,
}

impl SaveError {
    /// What to tell the user.
    pub fn message(&self) -> (text: String)
        ensures
            text@ == (match self {
                SaveError::LmNotBuilt => "LM not built"@,
                SaveError::TextStatesMismatch => "SAM text_states mismatch (expected text.len()+1)"@,
            }),
    {
        match self {
            SaveError::LmNotBuilt => "LM not built".to_string(),
            SaveError::TextStatesMismatch =>
                "SAM text_states mismatch (expected text.len()+1)".to_string(),
        }
    }
}

/// Inline edge `i` of a state, or zeros where the slot is not in use.
pub open spec fn slot_of(s: SamState, i: int) -> (u32, i32) {
    if i < s.small_n {
        (s.small_ch@[i], s.small_to@[i])
    } else {
        (0u32, 0i32)
    }
}

/// A state as it stands in the model file.
pub open spec fn file_state(s: SamState) -> FileState {
    FileState {
        link: s.link,
        len: s.len,
        endpos: s.endpos,
        small_n: s.small_n as u32,
        e0: slot_of(s, 0),
        e1: slot_of(s, 1),
        e2: slot_of(s, 2),
        e3: slot_of(s, 3),
        head: s.head,
    }
}

/// What the model file of a predictor holds.
pub open spec fn image_of(s: RosaSnapshot) -> ImageModel {
    ImageModel {
        max_order: s.max_order,
        use_eot: s.use_eot,
        eot: s.eot,
        seed: s.seed,
        st: s.sam.st.map_values(|x: SamState| file_state(x)),
        ed: s.sam.ed,
        text: s.sam.text,
        boundary_after: s.sam.boundary_after,
        last: s.sam.last,
        text_states: s.sam.text_states,
        total_uni: s.total_uni,
        alphabet: s.alphabet,
        unigram: s.unigram,
        ls: s.tallies.ls,
        nodes: s.tallies.nodes,
    }
}

/// A consistent predictor whose every context has its counts.
pub open spec fn is_complete(s: RosaSnapshot) -> bool {
    &&& model::rosa_wf(s)
    &&& s.lm_built
    &&& s.tallies.ls.len() == s.sam.st.len()
}

/// Whether `x` is what the file of some consistent predictor holds.
pub open spec fn is_consistent(x: ImageModel) -> bool {
    exists|s: RosaSnapshot| #[trigger] is_complete(s) && image_of(s) == x
}

/// Whether nothing stands in the unused places of a file. What is read from bytes has nothing there.
pub open spec fn is_tidy(x: ImageModel) -> bool {
    wire::all_plain(x.st)
}

/// A file without the counts that no number reaches: the counts are numbered from 0, and the largest
/// number of 32 bits stands for none.
pub open spec fn numbered(x: ImageModel) -> ImageModel {
    ImageModel {
        nodes: if x.nodes.len() <= u32::MAX {
            x.nodes
        } else {
            x.nodes.take(u32::MAX as int)
        },
        ..x
    }
}

/// Whether a predictor holds what a file holds: the settings, the automaton, the alphabet and the
/// counts, with the tables that are made of them, and a generator that has drawn nothing.
pub open spec fn holds(s: RosaSnapshot, x: ImageModel) -> bool {
    &&& image_of(s) == x
    &&& s.alpha_n == x.alphabet.len() as u32
    &&& s.lm_built
    &&& s.rng == (RngModel { buf: Seq::empty(), pos: 0, xs: ROSA_RNG_START })
    &&& s.sam.root_to == caches::root_table(s.sam.st, s.sam.ed)
    &&& s.has_byte_map == caches::all_bytes(x.alphabet)
    &&& s.byte_map == caches::byte_places(x.alphabet)
}

fn to_file_state(s: &SamState) -> (f: FileState)
    ensures
        f == file_state(*s),
{
    let zero: (u32, i32) = (0, 0);
    let n: u8 = s.small_n;
    FileState {
        link: s.link,
        len: s.len,
        endpos: s.endpos,
        small_n: n as u32,
        e0: if n > 0 {
            (s.small_ch[0], s.small_to[0])
        } else {
            zero
        },
        e1: if n > 1 {
            (s.small_ch[1], s.small_to[1])
        } else {
            zero
        },
        e2: if n > 2 {
            (s.small_ch[2], s.small_to[2])
        } else {
            zero
        },
        e3: if n > 3 {
            (s.small_ch[3], s.small_to[3])
        } else {
            zero
        },
        head: s.head,
    }
}

fn from_file_state(f: &FileState) -> (s: SamState)
    requires
        f.small_n <= 255,
    ensures
        s.link == f.link,
        s.len == f.len,
        s.endpos == f.endpos,
        s.head == f.head,
        s.small_n == f.small_n,
        s.small_ch@ == seq![f.e0.0, f.e1.0, f.e2.0, f.e3.0],
        s.small_to@ == seq![f.e0.1, f.e1.1, f.e2.1, f.e3.1],
{
    let s = SamState {
        link: f.link,
        len: f.len,
        endpos: f.endpos,
        head: f.head,
        small_ch: [f.e0.0, f.e1.0, f.e2.0, f.e3.0],
        small_to: [f.e0.1, f.e1.1, f.e2.1, f.e3.1],
        small_n: f.small_n as u8,
    };
    proof {
        assert(s.small_ch@ =~= seq![f.e0.0, f.e1.0, f.e2.0, f.e3.0]);
        assert(s.small_to@ =~= seq![f.e0.1, f.e1.1, f.e2.1, f.e3.1]);
    }
    s
}

proof fn lemma_file_state(a: SamState, b: SamState)
    requires
        a.small_n <= 4,
        b.link == a.link,
        b.len == a.len,
        b.endpos == a.endpos,
        b.head == a.head,
        b.small_n == a.small_n,
        b.small_ch@ == (seq![slot_of(a, 0).0, slot_of(a, 1).0, slot_of(a, 2).0, slot_of(a, 3).0]),
        b.small_to@ == (seq![slot_of(a, 0).1, slot_of(a, 1).1, slot_of(a, 2).1, slot_of(a, 3).1]),
    ensures
        sam::same_slots(a, b),
        file_state(b) == file_state(a),
{
    assert forall|i: int| 0 <= i < a.small_n implies #[trigger] a.small_ch@[i] == b.small_ch@[i]
        && a.small_to@[i] == b.small_to@[i] by {
        assert(i == 0 || i == 1 || i == 2 || i == 3);
    }
    assert(slot_of(b, 0) == slot_of(a, 0));
    assert(slot_of(b, 1) == slot_of(a, 1));
    assert(slot_of(b, 2) == slot_of(a, 2));
    assert(slot_of(b, 3) == slot_of(a, 3));
}

proof fn lemma_read_state(f: FileState, b: SamState)
    requires
        f.is_plain(),
        b.link == f.link,
        b.len == f.len,
        b.endpos == f.endpos,
        b.head == f.head,
        b.small_n == f.small_n,
        b.small_ch@ == (seq![f.e0.0, f.e1.0, f.e2.0, f.e3.0]),
        b.small_to@ == (seq![f.e0.1, f.e1.1, f.e2.1, f.e3.1]),
    ensures
        file_state(b) == f,
{
    assert(image::slot(f, 0) == slot_of(b, 0));
    assert(image::slot(f, 1) == slot_of(b, 1));
    assert(image::slot(f, 2) == slot_of(b, 2));
    assert(image::slot(f, 3) == slot_of(b, 3));
}

/// The file of a consistent predictor can be read.
pub proof fn lemma_complete_is_writable(s: RosaSnapshot)
    requires
        is_complete(s),
    ensures
        image_io::is_writable(image_of(s)),
        is_consistent(image_of(s)),
{
    let x = image_of(s);
    let n = s.sam.st.len() as int;
    assert forall|v: int| 0 <= v < n implies (#[trigger] x.st[v]).is_plain() && image::state_fault(
        x.st[v],
        n,
        x.ed.len() as int,
    ) is None by {
        let a = s.sam.st[v];
        let f = x.st[v];
        assert(f == file_state(a));
        assert(sam::state_ok(s.sam.st, s.sam.ed, s.sam.owner, s.sam.text.len() as int, v));
        assert(sam::link_ok(s.sam.st, s.sam.rank, v));
        assert forall|i: int| f.small_n <= i < 4 implies #[trigger] image::slot(f, i) == (0u32, 0i32) by {
            assert(i == 0 || i == 1 || i == 2 || i == 3);
        }
        assert forall|i: int| 0 <= i < f.small_n implies !image::bad_state((#[trigger] image::slot(f, i)).1, n) by {
            assert(i == 0 || i == 1 || i == 2 || i == 3);
            assert(0 < a.small_to@[i] < n);
        }
        lemma_no_slot_fault(f, n, 0);
    }
    lemma_no_states_fault(x.st, x.ed.len() as int, 0);
    assert forall|e: int| 0 <= e < x.ed.len() implies !image::bad_state((#[trigger] x.ed[e]).to, n) && (
    x.ed[e].next == SAM_EDGE_NONE || x.ed[e].next < x.ed.len()) by {
        assert(sam::edge_ok(n, s.sam.ed, s.sam.owner, e));
    }
    lemma_no_edges_fault(x.ed, n, 0);
    assert forall|i: int| 0 <= i < x.text_states.len() implies !image::bad_state(
        #[trigger] x.text_states[i],
        n,
    ) by {
        assert(0 <= s.sam.text_states[i] < n);
    }
    assert forall|v: int| #![trigger x.ls[v]] 0 <= v < x.ls.len() implies {
        &&& x.ls[v].head == LM_NODE_NONE || x.ls[v].head < x.nodes.len()
        &&& x.ls[v].last_node == LM_NODE_NONE || x.ls[v].last_node < x.nodes.len()
    } by {
        assert(tallies::record_ok(s.tallies.ls[v], s.tallies.nodes, s.tallies.owner, v));
    }
    lemma_no_records_fault(x.ls, x.nodes.len() as int, 0);
    assert forall|e: int| 0 <= e < x.nodes.len() implies (#[trigger] x.nodes[e]).next
        == LM_NODE_NONE || x.nodes[e].next < x.nodes.len() by {
        assert(tallies::node_ok(s.tallies.nodes, s.tallies.owner, s.tallies.ls.len() as int, e));
    }
    assert(is_complete(s) && image_of(s) == x);
}

proof fn lemma_no_slot_fault(f: FileState, n: int, k: int)
    requires
        0 <= k,
        forall|i: int| k <= i < f.small_n ==> !image::bad_state((#[trigger] image::slot(f, i)).1, n),
    ensures
        !image::slot_fault(f, n, k),
    decreases f.small_n - k,
{
    if k < f.small_n {
        assert(!image::bad_state(image::slot(f, k).1, n));
        lemma_no_slot_fault(f, n, k + 1);
    }
}

proof fn lemma_no_states_fault(st: Seq<FileState>, ed_n: int, i: int)
    requires
        0 <= i,
        forall|v: int|
            #![trigger st[v]]
            i <= v < st.len() ==> image::state_fault(st[v], st.len() as int, ed_n) is None,
    ensures
        image::states_fault(st, ed_n, i) is None,
    decreases st.len() - i,
{
    if i < st.len() {
        assert(image::state_fault(st[i], st.len() as int, ed_n) is None);
        lemma_no_states_fault(st, ed_n, i + 1);
    }
}

proof fn lemma_no_edges_fault(ed: Seq<SamEdge>, n: int, i: int)
    requires
        0 <= i,
        forall|e: int|
            i <= e < ed.len() ==> !image::bad_state((#[trigger] ed[e]).to, n) && (ed[e].next
                == SAM_EDGE_NONE || ed[e].next < ed.len()),
    ensures
        image::edges_fault(ed, n, i) is None,
    decreases ed.len() - i,
{
    if i < ed.len() {
        assert(!image::bad_state(ed[i].to, n));
        lemma_no_edges_fault(ed, n, i + 1);
    }
}

proof fn lemma_no_records_fault(ls: Seq<LmState>, nodes_n: int, i: int)
    requires
        0 <= i,
        forall|v: int|
            #![trigger ls[v]]
            i <= v < ls.len() ==> (ls[v].head == LM_NODE_NONE || ls[v].head < nodes_n) && (
            ls[v].last_node == LM_NODE_NONE || ls[v].last_node < nodes_n),
    ensures
        image::records_fault(ls, nodes_n, i) is None,
    decreases ls.len() - i,
{
    if i < ls.len() {
        assert(ls[i].head == LM_NODE_NONE || ls[i].head < nodes_n);
        lemma_no_records_fault(ls, nodes_n, i + 1);
    }
}

/// Two consistent predictors with the same file have seen the same text and count the same.
pub proof fn lemma_image_determines(a: RosaSnapshot, b: RosaSnapshot)
    requires
        is_complete(a),
        is_complete(b),
        image_of(a) == image_of(b),
    ensures
        sam::snapshot_model(a.sam) == sam::snapshot_model(b.sam),
        a.tallies.ls == b.tallies.ls,
        a.tallies.nodes == b.tallies.nodes,
        a.alphabet == b.alphabet,
        a.unigram == b.unigram,
        a.total_uni == b.total_uni,
        a.max_order == b.max_order,
        a.use_eot == b.use_eot,
        a.eot == b.eot,
        a.seed == b.seed,
{
    let fa = image_of(a).st;
    let fb = image_of(b).st;
    let n = a.sam.st.len() as int;
    assert(fa.len() == n && fb.len() == b.sam.st.len());
    assert forall|v: int| #![trigger b.sam.st[v]] 0 <= v < n implies sam::same_slots(
        a.sam.st[v],
        b.sam.st[v],
    ) by {
        assert(fa[v] == file_state(a.sam.st[v]));
        assert(fb[v] == file_state(b.sam.st[v]));
        assert(sam::state_ok(a.sam.st, a.sam.ed, a.sam.owner, a.sam.text.len() as int, v));
        let x = a.sam.st[v];
        let y = b.sam.st[v];
        assert forall|i: int| 0 <= i < x.small_n implies #[trigger] x.small_ch@[i]
            == y.small_ch@[i] && x.small_to@[i] == y.small_to@[i] by {
            assert(i == 0 || i == 1 || i == 2 || i == 3);
        }
    }
    let c = SamSnapshot { st: b.sam.st, ..a.sam };
    sam::lemma_same_slots(a.sam, c);
    assert(sam::snapshot_model(c) == sam::snapshot_model(b.sam));
}

/// What a kept predictor is read back as: the same text, counts and settings, whatever random
/// numbers either had in store.
pub proof fn law_save_load(a: RosaSnapshot, b: RosaSnapshot)
    requires
        is_complete(a),
        is_complete(b),
        image::decoded(image::image_bytes(image_of(a))) == Ok::<ImageModel, ImageError>(image_of(b)),
    ensures
        sam::snapshot_model(b.sam) == sam::snapshot_model(a.sam),
        tallies::tallies_of(b.tallies.ls, b.tallies.nodes) == tallies::tallies_of(a.tallies.ls, a.tallies.nodes),
        b.alphabet == a.alphabet,
        b.unigram == a.unigram,
        b.total_uni == a.total_uni,
        b.max_order == a.max_order,
        b.use_eot == a.use_eot,
        b.eot == a.eot,
        b.seed == a.seed,
{
    lemma_complete_is_writable(a);
    image_io::law_image_round_trip(image_of(a), Seq::empty());
    lemma_image_determines(a, b);
}

impl RosaPlus {
    /// What the model file of the predictor holds.
    pub fn to_image(&self) -> (image: RosaImage)
        requires
            self.wf(),
        ensures
            image@ == image_of(self.snap()),
    {
        let mut st: Vec<FileState> = Vec::new();
        let mut i: usize = 0;
        while i < self.sam.st.len()
            invariant
                i <= self.sam.st@.len(),
                st@.len() == i,
                forall|v: int| 0 <= v < i ==> #[trigger] st@[v] == file_state(self.sam.st@[v]),
            decreases self.sam.st@.len() - i,
        {
            st.push(to_file_state(&self.sam.st[i]));
            i += 1;
        }
        let mut nodes: Vec<CountNode> = Vec::new();
        let mut i: usize = 0;
        while i < self.lm.tallies.nodes.len()
            invariant
                self.wf(),
                i <= self.lm.tallies.nodes@.len(),
                nodes@ == self.lm.tallies.nodes@.take(i as int),
            decreases self.lm.tallies.nodes@.len() - i,
        {
            nodes.push(self.lm.tallies.nodes.get(i));
            i += 1;
            proof {
                assert(nodes@ =~= self.lm.tallies.nodes@.take(i as int));
            }
        }
        let image = RosaImage {
            max_order: self.max_order,
            use_eot: self.use_eot,
            eot: self.eot,
            seed: self.seed,
            st,
            ed: self.sam.ed.clone(),
            text: self.sam.text.clone(),
            boundary_after: self.sam.boundary_after.clone(),
            last: self.sam.last,
            text_states: self.sam.text_states.clone(),
            total_uni: self.lm.total_uni,
            alphabet: self.lm.alphabet.clone(),
            unigram: self.lm.unigram.clone(),
            ls: self.lm.tallies.ls.clone(),
            nodes,
        };
        proof {
            let x = image_of(self.snap());
            assert(image.st@ =~= x.st);
            assert(image.ed@ =~= x.ed);
            assert(image.text@ =~= x.text);
            assert(image.boundary_after@ =~= x.boundary_after);
            assert(image.text_states@ =~= x.text_states);
            assert(image.alphabet@ =~= x.alphabet);
            assert(image.unigram@ =~= x.unigram);
            assert(image.ls@ =~= x.ls);
            assert(image.nodes@ =~= x.nodes);
        }
        image
    }

    /// The predictor as the bytes of a model file.
    pub fn save_bytes(&self) -> (r: Result<Vec<u8>, SaveError>)
        requires
            self.wf(),
        ensures
            match r {
                Ok(bytes) => self.lm_built && bytes@ == image::image_bytes(image_of(self.snap())),
                Err(e) => !self.lm_built && e == SaveError::LmNotBuilt,
            },
    {
        if !self.lm_built {
            return Err(SaveError::LmNotBuilt);
        }
        if self.sam.text_states.len() != self.sam.text.len() + 1 {
            return Err(SaveError::TextStatesMismatch);
        }
        Ok(self.to_image().encode())
    }

    /// The predictor that a model file holds, with the counts that a number reaches. It is a
    /// consistent one where a consistent predictor wrote the file.
    pub fn from_image(image: RosaImage) -> (model: RosaPlus)
        ensures
            is_tidy(image@) ==> holds(model.snap(), numbered(image@)),
            is_consistent(image@) ==> {
                &&& model.wf()
                &&& is_complete(model.snap())
                &&& holds(model.snap(), image@)
            },
    {
        let ghost x = image@;
        let ghost w = choose|s: RosaSnapshot| #[trigger] is_complete(s) && image_of(s) == x;
        let ghost good = is_consistent(x);
        let mut st: Vec<SamState> = Vec::new();
        let n: usize = image.st.len();
        let mut i: usize = 0;
        while i < n
            invariant
                i <= n == image.st@.len(),
                x == image@,
                good ==> is_complete(w) && image_of(w) == x,
                st@.len() == i,
                forall|v: int| 0 <= v < i ==> (#[trigger] st@[v]).small_n <= 4,
                good ==> forall|v: int|
                    0 <= v < i ==> sam::same_slots(w.sam.st[v], #[trigger] st@[v]) && file_state(
                        st@[v],
                    ) == x.st[v],
                wire::all_plain(x.st) ==> forall|v: int|
                    0 <= v < i ==> file_state(#[trigger] st@[v]) == x.st[v],
            decreases n - i,
        {
            let f = image.st[i];
            let f = FileState {
                small_n: if f.small_n > 4 {
                    4
                } else {
                    f.small_n
                },
                ..f
            };
            let s = from_file_state(&f);
            proof {
                if good {
                    let a = w.sam.st[i as int];
                    assert(sam::state_ok(
                        w.sam.st,
                        w.sam.ed,
                        w.sam.owner,
                        w.sam.text.len() as int,
                        i as int,
                    ));
                    assert(x.st[i as int] == file_state(a));
                    lemma_file_state(a, s);
                }
                if wire::all_plain(x.st) {
                    assert(x.st[i as int].is_plain());
                    lemma_read_state(x.st[i as int], s);
                }
            }
            st.push(s);
            i += 1;
        }
        let root_to = root_edges(&st, &image.ed);
        let mut nodes = LmNodes::new();
        let mut i: usize = 0;
        while i < image.nodes.len() && nodes.len() < u32::MAX as usize
            invariant
                i <= image.nodes@.len(),
                i <= u32::MAX,
                nodes.wf(),
                nodes@ == image.nodes@.take(i as int),
            decreases image.nodes@.len() - i,
        {
            nodes.push(image.nodes[i]);
            i += 1;
            proof {
                assert(nodes@ =~= image.nodes@.take(i as int));
            }
        }
        let (has_byte_map, byte_map) = index_of_bytes(&image.alphabet);
        let lm = LM {
            alpha_n: image.alphabet.len() as u32,
            alphabet: image.alphabet,
            unigram: image.unigram,
            total_uni: image.total_uni,
            has_byte_map,
            byte_map,
            tallies: Tallies { ls: image.ls, nodes, owner: Ghost(w.tallies.owner) },
        };
        let model = RosaPlus {
            max_order: image.max_order,
            use_eot: image.use_eot,
            eot: image.eot,
            seed: image.seed,
            sam: Sam {
                st,
                ed: image.ed,
                last: image.last,
                root_to,
                text: image.text,
                text_states: image.text_states,
                boundary_after: image.boundary_after,
                owner: Ghost(w.sam.owner),
                rank: Ghost(w.sam.rank),
            },
            lm,
            lm_built: true,
            rng: RngStream::new(),
        };
        proof {
            let y = model.snap();
            if is_tidy(x) {
                assert(image_of(y).st =~= x.st);
                assert(y.tallies.nodes =~= numbered(x).nodes) by {
                    assert(image.nodes@.take(image.nodes@.len() as int) =~= image.nodes@);
                }
                assert(image_of(y) == numbered(x));
                assert(holds(y, numbered(x)));
            }
            if good {
                assert(image_of(w) == x);
                assert(y.sam.ed == w.sam.ed);
                let c = SamSnapshot { st: y.sam.st, ..w.sam };
                assert(w.sam.st.len() == x.st.len());
                sam::lemma_same_slots(w.sam, c);
                caches::lemma_root_table(y.sam.st, y.sam.ed, c.owner, c.rank, y.sam.text.len() as int);
                caches::lemma_byte_places(x.alphabet, x.unigram);
                assert(sam::snapshot_wf(y.sam));
                assert(image_of(y).st =~= x.st);
                assert(y.tallies.nodes =~= x.nodes) by {
                    assert(image.nodes@.take(image.nodes@.len() as int) =~= image.nodes@);
                }
                assert(y.tallies == w.tallies);
                assert(model::rosa_wf(y));
                assert(image_of(y) == x);
                assert(holds(y, x));
            }
        }
        model
    }

    /// Reads a model file. The predictor holds what the file holds, but for counts that no number
    /// reaches; it is a consistent one where a consistent predictor wrote the file.
    pub fn load_bytes(bytes: &[u8]) -> (r: Result<RosaPlus, ImageError>)
        ensures
            match image::decoded(bytes@) {
                Ok(x) => r matches Ok(model) && holds(model.snap(), numbered(x)) && (is_consistent(x) ==> {
                    &&& model.wf()
                    &&& is_complete(model.snap())
                    &&& holds(model.snap(), x)
                }),
                Err(e) => r matches Err(f) && f == e,
            },
    {
        proof {
            image::lemma_decoded_plain(bytes@);
        }
        match RosaImage::decode(bytes) {
            Ok(image) => Ok(RosaPlus::from_image(image)),
            Err(e) => Err(e),
        }
    }
}

} // verus!
