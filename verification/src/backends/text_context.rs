//! What a text looks like at a place: words, brackets, quotes and repeats.

use vstd::prelude::*;

use crate::hashed_store::HashedStore;

verus! {

/// What the text looks like behind the last byte.
#[derive(Clone, Copy, Debug, PartialEq, Eq, Structural)]
pub struct NeuralContextState {
    pub prev1: u8,
    pub prev2: u8,
    pub prev1_class: u8,
    pub prev2_class: u8,
    pub run_len: u16,
    pub utf8_left: u8,
    pub in_word: bool,
    pub word_len_bucket: u8,
    pub prev_word_class: u8,
    pub bracket_bucket: u8,
    pub quote_flags: u8,
    pub sentence_boundary: bool,
    pub paragraph_break: bool,
    pub repeat_len_bucket: u8,
    pub copied_last_byte: bool,
    pub has_history: bool,
}

/// In front of the first byte.
pub open spec fn blank_state() -> NeuralContextState {
    NeuralContextState {
        prev1: 0,
        prev2: 0,
        prev1_class: 0,
        prev2_class: 0,
        run_len: 0,
        utf8_left: 0,
        in_word: false,
        word_len_bucket: 0,
        prev_word_class: 0,
        bracket_bucket: 0,
        quote_flags: 0,
        sentence_boundary: false,
        paragraph_break: false,
        repeat_len_bucket: 0,
        copied_last_byte: false,
        has_history: false,
    }
}

// ---------------------------------------------------------------------------------------
// Bytes
// ---------------------------------------------------------------------------------------

/// Small letters.
pub open spec fn is_lower(b: u8) -> bool {
    97 <= b <= 122
}

/// Capital letters.
pub open spec fn is_upper(b: u8) -> bool {
    65 <= b <= 90
}

/// Digits.
pub open spec fn is_digit_byte(b: u8) -> bool {
    48 <= b <= 57
}

/// Class of a byte: letter, digit, blank, punctuation, first byte of a longer character, other
/// byte of one, or none of these.
pub open spec fn class_of(b: u8) -> u8 {
    if is_lower(b) || is_upper(b) {
        1
    } else if is_digit_byte(b) {
        2
    } else if b == 32 || b == 9 || b == 10 || b == 13 {
        3
    } else if 33 <= b <= 126 {
        4
    } else if b >= 192 {
        5
    } else if b >= 128 {
        6
    } else {
        0
    }
}

/// Bytes that words are made of.
pub open spec fn in_words(b: u8) -> bool {
    is_lower(b) || is_upper(b) || is_digit_byte(b) || b == 95 || b >= 128
}

/// Class of a length of a word.
pub open spec fn word_bucket(len: u16) -> u8 {
    if len <= 2 {
        len as u8
    } else if len <= 4 {
        3
    } else if len <= 8 {
        4
    } else if len <= 16 {
        5
    } else {
        6
    }
}

/// Class of a length of a repeat.
pub open spec fn repeat_bucket(len: nat) -> u8 {
    if len == 0 {
        0
    } else if len <= 3 {
        1
    } else if len <= 5 {
        2
    } else if len <= 8 {
        3
    } else if len <= 12 {
        4
    } else if len <= 16 {
        5
    } else if len <= 24 {
        6
    } else {
        7
    }
}

/// Bytes that are still missing of a character.
pub open spec fn missing_after(b: u8, left: u8) -> u8 {
    if 128 <= b <= 191 {
        if left == 0 {
            0
        } else {
            (left - 1) as u8
        }
    } else if 192 <= b <= 223 {
        1
    } else if 224 <= b <= 239 {
        2
    } else if 240 <= b <= 247 {
        3
    } else {
        0
    }
}

/// Class of a byte.
pub fn classify_byte(byte: u8) -> (class: u8)
    ensures
        class == class_of(byte),
{
    if (97 <= byte && byte <= 122) || (65 <= byte && byte <= 90) {
        1
    } else if 48 <= byte && byte <= 57 {
        2
    } else if byte == 32 || byte == 9 || byte == 10 || byte == 13 {
        3
    } else if 33 <= byte && byte <= 126 {
        4
    } else if byte >= 192 {
        5
    } else if byte >= 128 {
        6
    } else {
        0
    }
}

/// Bytes that words are made of.
pub fn is_word_byte(byte: u8) -> (yes: bool)
    ensures
        yes == in_words(byte),
{
    (97 <= byte && byte <= 122) || (65 <= byte && byte <= 90) || (48 <= byte && byte <= 57) || byte
        == 95 || byte >= 128
}

/// Class of a length of a word.
pub fn bucket_word_len(len: u16) -> (bucket: u8)
    ensures
        bucket == word_bucket(len),
{
    if len <= 2 {
        len as u8
    } else if len <= 4 {
        3
    } else if len <= 8 {
        4
    } else if len <= 16 {
        5
    } else {
        6
    }
}

/// Class of a length of a repeat.
pub fn bucket_repeat_len(len: usize) -> (bucket: u8)
    ensures
        bucket == repeat_bucket(len as nat),
{
    if len == 0 {
        0
    } else if len <= 3 {
        1
    } else if len <= 5 {
        2
    } else if len <= 8 {
        3
    } else if len <= 12 {
        4
    } else if len <= 16 {
        5
    } else if len <= 24 {
        6
    } else {
        7
    }
}

fn utf8_left_after(symbol: u8, prev_left: u8) -> (left: u8)
    ensures
        left == missing_after(symbol, prev_left),
{
    if 128 <= symbol && symbol <= 191 {
        if prev_left == 0 {
            0
        } else {
            prev_left - 1
        }
    } else if 192 <= symbol && symbol <= 223 {
        1
    } else if 224 <= symbol && symbol <= 239 {
        2
    } else if 240 <= symbol && symbol <= 247 {
        3
    } else {
        0
    }
}

// ---------------------------------------------------------------------------------------
// Words
// ---------------------------------------------------------------------------------------

/// What a word is made of so far.
#[derive(Clone, Copy, Debug, PartialEq, Eq, Structural)]
pub struct WordTracker {
    pub len: u16,
    pub saw_lower: bool,
    pub saw_upper: bool,
    pub saw_digit: bool,
    pub saw_other: bool,
}

/// No word.
pub open spec fn no_word() -> WordTracker {
    WordTracker {
        len: 0,
        saw_lower: false,
        saw_upper: false,
        saw_digit: false,
        saw_other: false,
    }
}

/// A word with one more byte.
pub open spec fn longer_word(w: WordTracker, b: u8) -> WordTracker {
    WordTracker {
        len: if w.len < u16::MAX {
            (w.len + 1) as u16
        } else {
            u16::MAX
        },
        saw_lower: w.saw_lower || is_lower(b),
        saw_upper: w.saw_upper || is_upper(b),
        saw_digit: w.saw_digit || is_digit_byte(b),
        saw_other: w.saw_other || !(is_lower(b) || is_upper(b) || is_digit_byte(b)),
    }
}

/// Class of a word: digits alone, capitals alone, small letters alone, or a mixture.
pub open spec fn class_of_word(w: WordTracker) -> u8 {
    if w.saw_digit && !w.saw_lower && !w.saw_upper && !w.saw_other {
        3
    } else if w.saw_upper && !w.saw_lower && !w.saw_digit && !w.saw_other {
        2
    } else if w.saw_lower && !w.saw_upper && !w.saw_digit && !w.saw_other {
        1
    } else if w.len > 0 {
        4
    } else {
        0
    }
}

impl WordTracker {
    fn blank() -> (w: Self)
        ensures
            w == no_word(),
    {
        WordTracker {
            len: 0,
            saw_lower: false,
            saw_upper: false,
            saw_digit: false,
            saw_other: false,
        }
    }

    fn observe(self, byte: u8) -> (w: Self)
        ensures
            w == longer_word(self, byte),
    {
        let lower: bool = 97 <= byte && byte <= 122;
        let upper: bool = 65 <= byte && byte <= 90;
        let digit: bool = 48 <= byte && byte <= 57;
        WordTracker {
            len: self.len.saturating_add(1),
            saw_lower: self.saw_lower || lower,
            saw_upper: self.saw_upper || upper,
            saw_digit: self.saw_digit || digit,
            saw_other: self.saw_other || !(lower || upper || digit),
        }
    }

    fn class(self) -> (class: u8)
        ensures
            class == class_of_word(self),
    {
        if self.saw_digit && !self.saw_lower && !self.saw_upper && !self.saw_other {
            3
        } else if self.saw_upper && !self.saw_lower && !self.saw_digit && !self.saw_other {
            2
        } else if self.saw_lower && !self.saw_upper && !self.saw_digit && !self.saw_other {
            1
        } else if self.len > 0 {
            4
        } else {
            0
        }
    }
}

// ---------------------------------------------------------------------------------------
// Repeats
// ---------------------------------------------------------------------------------------

/// Longest repeat that is measured.
pub const MAX_REPEAT: usize = 255;

/// No place.
pub const NO_PLACE: u32 = 0xffff_ffff;

/// The four bytes that end at `e`, as a number.
pub open spec fn four_at(h: Seq<u8>, e: int) -> int {
    ((h[e - 3] * 256 + h[e - 2]) * 256 + h[e - 1]) * 256 + h[e]
}

/// The last place below `n` where the four bytes `key` end; below zero where there is none.
pub open spec fn last_place(h: Seq<u8>, n: int, key: int) -> int
    decreases n,
{
    if n <= 3 {
        -1
    } else if four_at(h, n - 1) == key {
        n - 1
    } else {
        last_place(h, n - 1, key)
    }
}

/// Length of the equal stretches that end at `a` and `b`, of which `k` bytes are known to be equal.
pub open spec fn equal_stretch(h: Seq<u8>, a: int, b: int, k: nat) -> nat
    decreases MAX_REPEAT - k,
{
    if k < MAX_REPEAT && b >= k && a >= k && h[b - k] == h[a - k] {
        equal_stretch(h, a, b, k + 1)
    } else {
        k
    }
}

/// Place of the last earlier occurrence of the four bytes at the end.
pub open spec fn earlier_place(h: Seq<u8>) -> int {
    if h.len() < 4 {
        -1
    } else {
        last_place(h, h.len() - 1, four_at(h, h.len() - 1))
    }
}

/// Byte that a repeat of what was last seen would bring.
pub open spec fn repeat_byte(h: Seq<u8>) -> Option<u8> {
    if earlier_place(h) < 0 {
        None
    } else {
        Some(h[earlier_place(h) + 1])
    }
}

/// Length of the repeat.
pub open spec fn repeat_len(h: Seq<u8>) -> nat {
    if earlier_place(h) < 0 {
        0
    } else {
        equal_stretch(h, earlier_place(h), h.len() - 1, 4)
    }
}

/// Two places hold the same four bytes exactly where the numbers agree.
pub proof fn law_four_bytes(h: Seq<u8>, a: int, b: int)
    requires
        3 <= a < h.len(),
        3 <= b < h.len(),
    ensures
        four_at(h, a) == four_at(h, b) <==> (h[a] == h[b] && h[a - 1] == h[b - 1] && h[a - 2]
            == h[b - 2] && h[a - 3] == h[b - 3]),
{
}

proof fn lemma_last_place(h: Seq<u8>, n: int, key: int)
    requires
        n <= h.len(),
    ensures
        -1 <= last_place(h, n, key) < n || n <= 0,
        last_place(h, n, key) == -1 || (3 <= last_place(h, n, key) < n && four_at(
            h,
            last_place(h, n, key),
        ) == key),
    decreases n,
{
    if n > 3 && four_at(h, n - 1) != key {
        lemma_last_place(h, n - 1, key);
    }
}

proof fn lemma_last_place_kept(h: Seq<u8>, b: u8, n: int, key: int)
    requires
        n <= h.len(),
    ensures
        last_place(h.push(b), n, key) == last_place(h, n, key),
    decreases n,
{
    if n > 3 {
        assert(h.push(b)[n - 1] == h[n - 1] && h.push(b)[n - 2] == h[n - 2] && h.push(b)[n - 3]
            == h[n - 3] && h.push(b)[n - 4] == h[n - 4]);
        lemma_last_place_kept(h, b, n - 1, key);
    }
}

/// Places of four bytes: the last one and the one before it.
pub open spec fn two_places(h: Seq<u8>, key: int) -> (u32, u32) {
    let last = last_place(h, h.len() as int, key);
    let before = last_place(h, last, key);
    (
        last as u32,
        if before < 0 {
            NO_PLACE
        } else {
            before as u32
        },
    )
}

/// Finder of repeats.
pub struct LocalRepeatState {
    history: Vec<u8>,
    table: HashedStore<(u32, u32)>,
    predicted: Option<u8>,
    match_len: usize,
}

impl LocalRepeatState {
    /// What was seen.
    pub closed spec fn seen(&self) -> Seq<u8> {
        self.history@
    }

    /// The table leads from each four bytes to their last two places.
    pub closed spec fn wf(&self) -> bool {
        &&& self.table.wf()
        &&& self.history@.len() < NO_PLACE
        &&& forall|k: u64| #[trigger]
            self.table@.dom().contains(k) <==> last_place(
                self.history@,
                self.history@.len() as int,
                k as int,
            ) >= 0
        &&& forall|k: u64| #[trigger]
            self.table@.dom().contains(k) ==> self.table@[k] == two_places(self.history@, k as int)
        &&& self.predicted == repeat_byte(self.history@)
        &&& self.match_len == repeat_len(self.history@)
    }

    fn new() -> (r: Self)
        ensures
            r.wf(),
            r.seen() == Seq::<u8>::empty(),
    {
        LocalRepeatState {
            history: Vec::new(),
            table: HashedStore::new(),
            predicted: None,
            match_len: 0,
        }
    }

    fn duplicate(&self) -> (copy: Self)
        requires
            self.wf(),
        ensures
            copy.wf(),
            copy.seen() == self.seen(),
    {
        let history = self.history.clone();
        proof {
            assert(history@ =~= self.history@);
        }
        LocalRepeatState {
            history,
            table: self.table.duplicate(),
            predicted: self.predicted,
            match_len: self.match_len,
        }
    }

    fn update(&mut self, symbol: u8)
        requires
            old(self).wf(),
            old(self).seen().len() + 1 < NO_PLACE,
        ensures
            final(self).wf(),
            final(self).seen() == old(self).seen().push(symbol),
    {
        let ghost before = self.history@;
        self.history.push(symbol);
        let n: usize = self.history.len();
        if n < 4 {
            self.predicted = None;
            self.match_len = 0;
            return;
        }
        let end: usize = n - 1;
        let key: u64 = ((self.history[end - 3] as u64 * 256 + self.history[end - 2] as u64) * 256
            + self.history[end - 1] as u64) * 256 + self.history[end] as u64;
        let ghost h = self.history@;
        let previous: u32 = match self.table.get(key) {
            Some(e) => e.0,
            None => NO_PLACE,
        };
        proof {
            assert(key == four_at(h, end as int));
            lemma_last_place_kept(before, symbol, end as int, key as int);
            lemma_last_place(before, end as int, key as int);
            assert(last_place(h, n as int, key as int) == end);
        }
        let ghost old_table = self.table@;
        self.table.insert(key, (end as u32, previous));
        proof {
            assert forall|k: u64| #[trigger] self.table@.dom().contains(k) <==> last_place(
                h,
                n as int,
                k as int,
            ) >= 0 by {
                if k != key {
                    assert(old_table.dom().contains(k) == self.table@.dom().contains(k));
                    lemma_last_place_kept(before, symbol, end as int, k as int);
                }
            }
            assert forall|k: u64| #[trigger] self.table@.dom().contains(k) implies self.table@[k]
                == two_places(h, k as int) by {
                if k != key {
                    assert(old_table.dom().contains(k));
                    lemma_last_place_kept(before, symbol, end as int, k as int);
                    lemma_last_place(before, end as int, k as int);
                    lemma_last_place_kept(
                        before,
                        symbol,
                        last_place(before, end as int, k as int),
                        k as int,
                    );
                }
            }
        }
        if previous == NO_PLACE {
            self.predicted = None;
            self.match_len = 0;
            return;
        }
        let candidate: usize = previous as usize;
        let mut matched: usize = 4;
        while matched < MAX_REPEAT && end >= matched && candidate >= matched && self.history[end
            - matched] == self.history[candidate - matched]
            invariant
                4 <= matched <= MAX_REPEAT,
                candidate < end < self.history@.len(),
                self.history@ == h,
                equal_stretch(h, candidate as int, end as int, 4) == equal_stretch(
                    h,
                    candidate as int,
                    end as int,
                    matched as nat,
                ),
            decreases MAX_REPEAT - matched,
        {
            matched += 1;
        }
        self.predicted = Some(self.history[candidate + 1]);
        self.match_len = matched;
    }
}

// ---------------------------------------------------------------------------------------
// Brackets
// ---------------------------------------------------------------------------------------

/// Most brackets that are kept.
pub const MAX_BRACKETS: usize = 8;

/// Open brackets after one more; the last of too many gives way.
pub open spec fn bracket_opened(stack: Seq<u8>, bracket: u8) -> Seq<u8> {
    if stack.len() < MAX_BRACKETS {
        stack.push(bracket)
    } else {
        stack.update(stack.len() - 1, bracket)
    }
}

/// Index below `n` of the last bracket of the kind; below zero where there is none.
pub open spec fn last_bracket(stack: Seq<u8>, bracket: u8, n: int) -> int
    decreases n,
{
    if n <= 0 {
        -1
    } else if stack[n - 1] == bracket {
        n - 1
    } else {
        last_bracket(stack, bracket, n - 1)
    }
}

/// Open brackets after one is closed: it takes those inside it along, and does nothing where it was
/// not open.
pub open spec fn bracket_closed(stack: Seq<u8>, bracket: u8) -> Seq<u8> {
    let at = last_bracket(stack, bracket, stack.len() as int);
    if at < 0 {
        stack
    } else {
        stack.take(at)
    }
}

/// Kind of a bracket that a byte opens.
pub open spec fn opening_kind(b: u8) -> Option<u8> {
    if b == 40 {
        Some(1)
    } else if b == 91 {
        Some(2)
    } else if b == 123 {
        Some(3)
    } else if b == 60 {
        Some(4)
    } else {
        None
    }
}

/// Kind of a bracket that a byte closes.
pub open spec fn closing_kind(b: u8) -> Option<u8> {
    if b == 41 {
        Some(1)
    } else if b == 93 {
        Some(2)
    } else if b == 125 {
        Some(3)
    } else if b == 62 {
        Some(4)
    } else {
        None
    }
}

/// Open brackets after a byte.
pub open spec fn brackets_after(stack: Seq<u8>, b: u8) -> Seq<u8> {
    match opening_kind(b) {
        Some(kind) => bracket_opened(stack, kind),
        None => match closing_kind(b) {
            Some(kind) => bracket_closed(stack, kind),
            None => stack,
        },
    }
}

fn update_brackets(stack: &mut Vec<u8>, symbol: u8)
    requires
        old(stack)@.len() <= MAX_BRACKETS,
    ensures
        final(stack)@ == brackets_after(old(stack)@, symbol),
        final(stack)@.len() <= MAX_BRACKETS,
{
    let opened: u8 = if symbol == 40 {
        1
    } else if symbol == 91 {
        2
    } else if symbol == 123 {
        3
    } else if symbol == 60 {
        4
    } else {
        0
    };
    if opened != 0 {
        if stack.len() < MAX_BRACKETS {
            stack.push(opened);
        } else {
            let last: usize = stack.len() - 1;
            stack.set(last, opened);
        }
        return;
    }
    let closed: u8 = if symbol == 41 {
        1
    } else if symbol == 93 {
        2
    } else if symbol == 125 {
        3
    } else if symbol == 62 {
        4
    } else {
        0
    };
    if closed == 0 {
        return;
    }
    let mut n: usize = stack.len();
    let ghost whole = stack@;
    while n > 0
        invariant
            n <= stack@.len(),
            stack@ == whole,
            whole.len() <= MAX_BRACKETS,
            last_bracket(whole, closed, whole.len() as int) == last_bracket(
                whole,
                closed,
                n as int,
            ),
            whole == old(stack)@,
            closed != 0,
            closing_kind(symbol) == Some(closed),
            opening_kind(symbol) is None,
        decreases n,
    {
        n -= 1;
        if stack[n] == closed {
            stack.truncate(n);
            proof {
                assert(stack@ =~= whole.take(n as int));
            }
            return;
        }
    }
}

// ---------------------------------------------------------------------------------------
// The whole
// ---------------------------------------------------------------------------------------

/// Looks at a text byte by byte.
pub struct TextContextAnalyzer {
    state: NeuralContextState,
    word: WordTracker,
    newline_run: u8,
    brackets: Vec<u8>,
    repeat: Option<LocalRepeatState>,
}

/// [`TextContextAnalyzer`] as a mathematical object.
#[verifier::ext_equal]
pub struct AnalyzerModel {
    pub state: NeuralContextState,
    pub word: WordTracker,
    pub newline_run: u8,
    pub brackets: Seq<u8>,
    /// What was seen, where repeats are looked for.
    pub seen: Option<Seq<u8>>,
}

impl View for TextContextAnalyzer {
    type V = AnalyzerModel;

    closed spec fn view(&self) -> AnalyzerModel {
        AnalyzerModel {
            state: self.state,
            word: self.word,
            newline_run: self.newline_run,
            brackets: self.brackets@,
            seen: match self.repeat {
                Some(r) => Some(r.seen()),
                None => None,
            },
        }
    }
}

/// In front of the first byte.
pub open spec fn blank_analyzer(repeats: bool) -> AnalyzerModel {
    AnalyzerModel {
        state: blank_state(),
        word: no_word(),
        newline_run: 0,
        brackets: Seq::empty(),
        seen: if repeats {
            Some(Seq::empty())
        } else {
            None
        },
    }
}

/// Word after a byte.
pub open spec fn word_after(m: AnalyzerModel, b: u8) -> WordTracker {
    if in_words(b) {
        longer_word(
            if m.state.in_word {
                m.word
            } else {
                no_word()
            },
            b,
        )
    } else if m.state.in_word {
        no_word()
    } else {
        m.word
    }
}

/// Line breaks in a row, three at most.
pub open spec fn breaks_after(run: u8, b: u8) -> u8 {
    if b != 10 {
        0
    } else if run >= 2 {
        3
    } else {
        (run + 1) as u8
    }
}

/// What the text looks like after one more byte.
pub open spec fn analyzed(m: AnalyzerModel, b: u8) -> AnalyzerModel {
    let brackets = brackets_after(m.brackets, b);
    let word = word_after(m, b);
    let breaks = breaks_after(m.newline_run, b);
    let seen = match m.seen {
        Some(h) => Some(h.push(b)),
        None => None,
    };
    AnalyzerModel {
        state: NeuralContextState {
            prev1: b,
            prev2: m.state.prev1,
            prev1_class: class_of(b),
            prev2_class: m.state.prev1_class,
            run_len: if m.state.has_history && b == m.state.prev1 {
                if m.state.run_len >= 255 {
                    255
                } else {
                    (m.state.run_len + 1) as u16
                }
            } else {
                1
            },
            utf8_left: missing_after(b, m.state.utf8_left),
            in_word: in_words(b),
            word_len_bucket: word_bucket(word.len),
            prev_word_class: if !in_words(b) && m.state.in_word {
                class_of_word(m.word)
            } else {
                m.state.prev_word_class
            },
            bracket_bucket: if brackets.len() == 0 {
                0
            } else {
                brackets.last()
            },
            quote_flags: if b == 34 {
                m.state.quote_flags ^ 1
            } else if b == 39 {
                m.state.quote_flags ^ 2
            } else {
                m.state.quote_flags
            },
            sentence_boundary: b == 46 || b == 33 || b == 63,
            paragraph_break: breaks >= 2,
            repeat_len_bucket: match seen {
                Some(h) => repeat_bucket(repeat_len(h)),
                None => 0,
            },
            copied_last_byte: match m.seen {
                Some(h) => repeat_byte(h) == Some(b),
                None => false,
            },
            has_history: true,
        },
        word,
        newline_run: breaks,
        brackets,
        seen,
    }
}

/// What the text looks like after more bytes.
pub open spec fn analyzed_text(m: AnalyzerModel, bytes: Seq<u8>) -> AnalyzerModel
    decreases bytes.len(),
{
    if bytes.len() == 0 {
        m
    } else {
        analyzed(analyzed_text(m, bytes.drop_last()), bytes.last())
    }
}

/// How many equal bytes end the text, 255 at most.
pub open spec fn run_at_end(bytes: Seq<u8>) -> nat
    decreases bytes.len(),
{
    if bytes.len() == 0 {
        0
    } else if bytes.len() > 1 && bytes[bytes.len() - 2] == bytes.last() && run_at_end(
        bytes.drop_last(),
    ) < 255 {
        run_at_end(bytes.drop_last()) + 1
    } else if bytes.len() > 1 && bytes[bytes.len() - 2] == bytes.last() {
        255
    } else {
        1
    }
}

/// From the first byte on, what is told of a text is told of its last bytes: the last and the one
/// before with their classes, how often the last one is repeated, whether it belongs to a word, ends
/// a sentence, or is the one that followed when the four bytes in front of it last occurred.
pub proof fn law_state_tells_the_text(bytes: Seq<u8>, repeats: bool)
    requires
        bytes.len() > 0,
    ensures
        ({
            let n = bytes.len() as int;
            let last = bytes[n - 1];
            let after = analyzed_text(blank_analyzer(repeats), bytes);
            let s = after.state;
            &&& s.has_history
            &&& s.prev1 == last && s.prev1_class == class_of(last)
            &&& n > 1 ==> s.prev2 == bytes[n - 2] && s.prev2_class == class_of(bytes[n - 2])
            &&& s.run_len == run_at_end(bytes)
            &&& s.in_word == in_words(last)
            &&& s.sentence_boundary == (last == '.' as u8 || last == '!' as u8 || last == '?' as u8)
            &&& s.paragraph_break == (n > 1 && last == 10 && bytes[n - 2] == 10)
            &&& repeats ==> after.seen == Some(bytes)
            &&& repeats ==> s.copied_last_byte == (n > 4 && repeat_byte(bytes.drop_last()) == Some(last))
            &&& repeats ==> s.repeat_len_bucket == repeat_bucket(repeat_len(bytes))
            &&& after.newline_run == (if last != 10 {
                0
            } else if n > 2 && bytes[n - 2] == 10 && bytes[n - 3] == 10 {
                3int
            } else if n > 1 && bytes[n - 2] == 10 {
                2
            } else {
                1
            })
        }),
    decreases bytes.len(),
{
    let rest = bytes.drop_last();
    let m = blank_analyzer(repeats);
    reveal_with_fuel(analyzed_text, 2);
    if rest.len() > 0 {
        law_state_tells_the_text(rest, repeats);
        assert(rest.push(bytes.last()) =~= bytes);
        if rest.len() > 1 {
            assert(rest.drop_last().len() > 0);
        }
    } else {
        assert(Seq::<u8>::empty().push(bytes.last()) =~= bytes);
        assert(rest =~= Seq::<u8>::empty());
    }
}

/// The byte that a repeat would bring is the one behind the last earlier place at which the last
/// four bytes stand; there is none exactly where they stand nowhere earlier.
pub proof fn law_repeat_is_the_last_one(h: Seq<u8>)
    requires
        h.len() >= 4,
    ensures
        ({
            let n = h.len() as int;
            let same = |e: int| h[e] == h[n - 1] && h[e - 1] == h[n - 2] && h[e - 2] == h[n - 3] && h[e
                - 3] == h[n - 4];
            match repeat_byte(h) {
                Some(b) => exists|e: int|
                    3 <= e < n - 1 && #[trigger] same(e) && b == h[e + 1] && repeat_len(h) >= 4 && forall|
                        f: int,
                    |
                        e < f < n - 1 ==> !(#[trigger] same(f)),
                None => repeat_len(h) == 0 && forall|f: int| 3 <= f < n - 1 ==> !(#[trigger] same(f)),
            }
        }),
{
    let n = h.len() as int;
    let same = |e: int| h[e] == h[n - 1] && h[e - 1] == h[n - 2] && h[e - 2] == h[n - 3] && h[e - 3]
        == h[n - 4];
    let key = four_at(h, n - 1);
    lemma_places_told(h, n - 1, key);
    let e = earlier_place(h);
    assert forall|f: int| 3 <= f < n - 1 implies #[trigger] same(f) == (four_at(h, f) == key) by {
        law_four_bytes(h, f, n - 1);
    }
    if e >= 0 {
        assert(same(e));
        lemma_stretch_grows(h, e, n - 1, 4);
    }
}

proof fn lemma_stretch_grows(h: Seq<u8>, a: int, b: int, k: nat)
    ensures
        equal_stretch(h, a, b, k) >= k,
    decreases MAX_REPEAT - k,
{
    if k < MAX_REPEAT && b >= k && a >= k && h[b - k] == h[a - k] {
        lemma_stretch_grows(h, a, b, k + 1);
    }
}

proof fn lemma_places_told(h: Seq<u8>, n: int, key: int)
    requires
        n <= h.len(),
    ensures
        last_place(h, n, key) >= 0 ==> 3 <= last_place(h, n, key) < n && four_at(
            h,
            last_place(h, n, key),
        ) == key,
        forall|f: int| 3 <= f < n && f > last_place(h, n, key) ==> #[trigger] four_at(h, f) != key,
    decreases n,
{
    if n > 3 && four_at(h, n - 1) != key {
        lemma_places_told(h, n - 1, key);
    }
}

impl TextContextAnalyzer {
    /// No more brackets are kept than there is room for, the last byte has a class, and the finder
    /// of repeats is in order.
    pub closed spec fn wf(&self) -> bool {
        &&& self.brackets@.len() <= MAX_BRACKETS
        &&& self.state.prev1_class <= 6
        &&& self.repeat matches Some(r) ==> r.wf()
    }

    fn blank(repeat: Option<LocalRepeatState>) -> (analyzer: Self)
        requires
            repeat matches Some(r) ==> r.wf() && r.seen().len() == 0,
        ensures
            analyzer.wf(),
            analyzer@ == blank_analyzer(repeat is Some),
    {
        let analyzer = TextContextAnalyzer {
            state: NeuralContextState {
                prev1: 0,
                prev2: 0,
                prev1_class: 0,
                prev2_class: 0,
                run_len: 0,
                utf8_left: 0,
                in_word: false,
                word_len_bucket: 0,
                prev_word_class: 0,
                bracket_bucket: 0,
                quote_flags: 0,
                sentence_boundary: false,
                paragraph_break: false,
                repeat_len_bucket: 0,
                copied_last_byte: false,
                has_history: false,
            },
            word: WordTracker::blank(),
            newline_run: 0,
            brackets: Vec::new(),
            repeat,
        };
        proof {
            assert(analyzer@.brackets =~= Seq::empty());
            assert(analyzer.repeat is Some ==> analyzer.repeat->0.seen() =~= Seq::empty());
        }
        analyzer
    }

    /// An analyzer that looks for repeats.
    pub fn new() -> (analyzer: Self)
        ensures
            analyzer.wf(),
            analyzer@ == blank_analyzer(true),
    {
        TextContextAnalyzer::blank(Some(LocalRepeatState::new()))
    }

    /// An analyzer that does not look for repeats, and so stays small.
    pub fn without_repeat_tracking() -> (analyzer: Self)
        ensures
            analyzer.wf(),
            analyzer@ == blank_analyzer(false),
    {
        TextContextAnalyzer::blank(None)
    }

    /// A second analyzer in the same state.
    pub fn duplicate(&self) -> (copy: Self)
        requires
            self.wf(),
        ensures
            copy.wf(),
            copy@ == self@,
    {
        let brackets = self.brackets.clone();
        proof {
            assert(brackets@ =~= self.brackets@);
        }
        let repeat = match &self.repeat {
            Some(r) => Some(r.duplicate()),
            None => None,
        };
        TextContextAnalyzer {
            state: self.state,
            word: self.word,
            newline_run: self.newline_run,
            brackets,
            repeat,
        }
    }

    /// What the text looks like.
    pub fn state(&self) -> (state: NeuralContextState)
        ensures
            state == self@.state,
            self.wf() ==> state.prev1_class <= 6,
    {
        self.state
    }

    /// Looks at one more byte.
    pub fn update(&mut self, symbol: u8)
        requires
            old(self).wf(),
            old(self)@.seen matches Some(h) ==> h.len() + 1 < NO_PLACE,
        ensures
            final(self).wf(),
            final(self)@ == analyzed(old(self)@, symbol),
    {
        let ghost before = self@;
        let mut copied: bool = false;
        let mut bucket: u8 = 0;
        match &mut self.repeat {
            Some(r) => {
                if let Some(p) = r.predicted {
                    copied = p == symbol;
                }
                r.update(symbol);
                bucket = bucket_repeat_len(r.match_len);
            },
            None => {},
        }
        let s = self.state;
        let word_byte: bool = is_word_byte(symbol);
        let mut word_class: u8 = s.prev_word_class;
        if word_byte {
            let w = if s.in_word {
                self.word
            } else {
                WordTracker::blank()
            };
            self.word = w.observe(symbol);
        } else if s.in_word {
            word_class = self.word.class();
            self.word = WordTracker::blank();
        }
        if symbol == 10 {
            self.newline_run = if self.newline_run >= 2 {
                3
            } else {
                self.newline_run + 1
            };
        } else {
            self.newline_run = 0;
        }
        update_brackets(&mut self.brackets, symbol);
        let depth: usize = self.brackets.len();
        self.state = NeuralContextState {
            prev1: symbol,
            prev2: s.prev1,
            prev1_class: classify_byte(symbol),
            prev2_class: s.prev1_class,
            run_len: if s.has_history && symbol == s.prev1 {
                if s.run_len >= 255 {
                    255
                } else {
                    s.run_len + 1
                }
            } else {
                1
            },
            utf8_left: utf8_left_after(symbol, s.utf8_left),
            in_word: word_byte,
            word_len_bucket: bucket_word_len(self.word.len),
            prev_word_class: word_class,
            bracket_bucket: if depth == 0 {
                0
            } else {
                self.brackets[depth - 1]
            },
            quote_flags: if symbol == 34 {
                s.quote_flags ^ 1
            } else if symbol == 39 {
                s.quote_flags ^ 2
            } else {
                s.quote_flags
            },
            sentence_boundary: symbol == 46 || symbol == 33 || symbol == 63,
            paragraph_break: self.newline_run >= 2,
            repeat_len_bucket: bucket,
            copied_last_byte: copied,
            has_history: true,
        };
        proof {
            assert(self@ =~= analyzed(before, symbol));
        }
    }
}

} // verus!
