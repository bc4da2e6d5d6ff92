//! Sequential rate model that measures how much a streaming compressor grows.

use vstd::prelude::*;
use crate::text;

use crate::text::{push_text, string_of};

verus! {

/// Streaming compressor of the `zpaq_rs` crate. What it holds is opaque.
#[verifier::external_type_specification]
#[verifier::external_body]
pub struct ExStreamingCompressor(zpaq_rs::StreamingCompressor);

/// Bytes that a compressor was fed.
pub uninterp spec fn fed_bytes(compressor: zpaq_rs::StreamingCompressor) -> Seq<u8>;

/// Method that a compressor was made with.
pub uninterp spec fn made_with(compressor: zpaq_rs::StreamingCompressor) -> Seq<char>;

/// Code length that a compressor tells of itself, as the bits of a number with a fraction.
pub uninterp spec fn bits_read(compressor: zpaq_rs::StreamingCompressor) -> u64;

/// Why the compressor failed.
#[derive(Debug)]
pub enum ZpaqFault {
    /// The compression library says so.
    Library(String),
    /// The method holds a zero character.
    ZeroInMethod,
    /// There is no compressor: an earlier failure has cost it.
    Lost,
}

/// Text of a fault of the compression library.
pub open spec fn library_fault(text: Seq<char>) -> Seq<char> {
    "libzpaq: "@ + text
}

impl ZpaqFault {
    /// Text of the fault.
    pub open spec fn text(&self) -> Seq<char> {
        match self {
            ZpaqFault::Library(s) => library_fault(s@),
            ZpaqFault::ZeroInMethod => "string contained NUL byte"@,
            ZpaqFault::Lost => "zpaq stream compressor must be initialized"@,
        }
    }

    /// What to tell the user.
    pub fn message(&self) -> (text: String)
        ensures
            text@ == self.text(),
    {
        match self {
            ZpaqFault::Library(s) => {
                let mut out: Vec<char> = Vec::new();
                push_text(&mut out, "libzpaq: ");
                push_text(&mut out, s.as_str());
                proof {
                    assert(out@ =~= library_fault(s@));
                }
                string_of(&out)
            },
            ZpaqFault::ZeroInMethod => "string contained NUL byte".to_string(),
            ZpaqFault::Lost => "zpaq stream compressor must be initialized".to_string(),
        }
    }
}

/// Level that a text writes: decimal digits, with or without a sign in front, and a value that fits
/// into 32 bits.
pub open spec fn level_of(t: Seq<char>) -> Option<int> {
    let digits = if t.len() > 0 && (t[0] == '+' || t[0] == '-') {
        t.skip(1)
    } else {
        t
    };
    let value = text::digits_value(digits) as int;
    let level = if t.len() > 0 && t[0] == '-' {
        -value
    } else {
        value
    };
    if digits.len() > 0 && text::all_digits(digits) && i32::MIN <= level <= i32::MAX {
        Some(level)
    } else {
        None
    }
}

/// Why a method is refused whatever the compression library thinks of it: it is blank, or a level
/// outside of one to three.
pub open spec fn plain_refusal(method: Seq<char>) -> Option<Seq<char>> {
    if text::trimmed(method).len() == 0 {
        Some("method string is empty"@)
    } else {
        match level_of(text::trimmed(method)) {
            Some(level) => if 1 <= level <= 3 {
                None
            } else {
                Some(
                    "streaming numeric levels support 1..3 only; use x/s/i/0 with no preprocessing"@,
                )
            },
            None => None,
        }
    }
}

/// Whether a result is a refusal by the compression library with the text.
pub open spec fn is_refusal<T>(result: Result<T, ZpaqFault>, text: Seq<char>) -> bool {
    result matches Err(ZpaqFault::Library(s)) && s@ == text
}

/// Whether a fault can come of a compressor that is there: a zero character is told of only where
/// the method holds one, and the compressor is not lost.
pub open spec fn fault_fits(fault: ZpaqFault, method: Seq<char>) -> bool {
    match fault {
        ZpaqFault::Library(s) => true,
        ZpaqFault::ZeroInMethod => text::trimmed(method).contains('\0'),
        ZpaqFault::Lost => false,
    }
}

/// Calls `zpaq_rs::StreamingCompressor::new`. A fresh compressor was made with the method and fed
/// nothing. A method that is blank, or a level outside of one to three, is refused with the text
/// that the crate gives. A method with a zero character is refused, and only such a method is told
/// to hold one. Which other methods are accepted is left unsaid: the compression library decides,
/// and it asks the machine for memory.
#[verifier::external_body]
fn open_compressor(method: &str) -> (result: Result<zpaq_rs::StreamingCompressor, ZpaqFault>)
    ensures
        result matches Ok(c) ==> fed_bytes(c) == Seq::<u8>::empty() && made_with(c) == method@
            && !text::trimmed(method@).contains('\0'),
        result matches Err(e) ==> fault_fits(e, method@),
        plain_refusal(method@) matches Some(text) ==> is_refusal(result, text),
{
    match zpaq_rs::StreamingCompressor::new(method) {
        Ok(c) => Ok(c),
        Err(zpaq_rs::ZpaqError::Ffi(s)) => Err(ZpaqFault::Library(s)),
        Err(zpaq_rs::ZpaqError::NulInString) => Err(ZpaqFault::ZeroInMethod),
    }
}

/// Calls `zpaq_rs::StreamingCompressor::push`, which feeds one byte; the method stays. A failure is
/// one of the compression library. Of a compressor that failed nothing is said.
#[verifier::external_body]
fn feed_compressor(compressor: &mut zpaq_rs::StreamingCompressor, byte: u8) -> (result: Result<
    (),
    ZpaqFault,
>)
    ensures
        result is Ok ==> fed_bytes(*final(compressor)) == fed_bytes(*old(compressor)).push(byte)
            && made_with(*final(compressor)) == made_with(*old(compressor)),
        result matches Err(e) ==> e is Library,
{
    match compressor.push(byte) {
        Ok(()) => Ok(()),
        Err(zpaq_rs::ZpaqError::Ffi(s)) => Err(ZpaqFault::Library(s)),
        Err(zpaq_rs::ZpaqError::NulInString) => Err(ZpaqFault::ZeroInMethod),
    }
}

/// Calls `zpaq_rs::StreamingCompressor::bits`, which reads the code length so far off the
/// compressor. The length is summed with the logarithm of the machine's own library, so it is not
/// said to follow from the method and the bytes.
#[verifier::external_body]
fn compressor_bits(compressor: &zpaq_rs::StreamingCompressor) -> (bits: u64)
    ensures
        bits == bits_read(*compressor),
{
    compressor.bits().to_bits()
}

/// Whether the code length was read off a compressor that was made with the method and fed the
/// bytes.
pub open spec fn read_behind(method: Seq<char>, bytes: Seq<u8>, bits: u64) -> bool {
    exists|c: zpaq_rs::StreamingCompressor|
        #![trigger bits_read(c)]
        made_with(c) == method && fed_bytes(c) == bytes && bits_read(c) == bits
}

/// Whether both code lengths of a symbol were read, in front of it and behind it.
pub open spec fn span_read(method: Seq<char>, bytes: Seq<u8>, symbol: u8, span: BitSpan) -> bool {
    read_behind(method, bytes, span.before) && read_behind(method, bytes.push(symbol), span.after)
}

/// Whether the code lengths of a symbol in a stream were read; in front of the first symbol the
/// length counts as zero.
pub open spec fn span_counted(method: Seq<char>, bytes: Seq<u8>, symbol: u8, span: BitSpan) -> bool {
    &&& if bytes.len() == 0 {
        span.before == 0
    } else {
        read_behind(method, bytes, span.before)
    }
    &&& read_behind(method, bytes.push(symbol), span.after)
}

/// Code lengths in front of a symbol and behind it, each as the bits of a number with a fraction.
#[derive(Clone, Copy, Debug, PartialEq, Eq, Structural)]
pub struct BitSpan {
    pub before: u64,
    pub after: u64,
}

/// The compressor that was opened, fed the bytes.
pub fn replayed(opened: Result<zpaq_rs::StreamingCompressor, ZpaqFault>, bytes: &[u8]) -> (result:
    Result<zpaq_rs::StreamingCompressor, ZpaqFault>)
    ensures
        opened is Err ==> result == opened,
        bytes@.len() == 0 ==> result == opened,
        opened matches Ok(o) ==> match result {
            Ok(c) => made_with(c) == made_with(o) && fed_bytes(c) == fed_bytes(o) + bytes@,
            Err(e) => e is Library,
        },
{
    let mut c = match opened {
        Ok(c) => c,
        Err(e) => {
            return Err(e);
        },
    };
    let ghost start = c;
    let n: usize = bytes.len();
    let mut i: usize = 0;
    proof {
        assert(fed_bytes(start) + bytes@.take(0) =~= fed_bytes(start));
    }
    while i < n
        invariant
            i <= n == bytes@.len(),
            i == 0 ==> c == start,
            made_with(c) == made_with(start),
            fed_bytes(c) == fed_bytes(start) + bytes@.take(i as int),
            opened == Ok::<zpaq_rs::StreamingCompressor, ZpaqFault>(start),
        decreases n - i,
    {
        let b: u8 = bytes[i];
        match feed_compressor(&mut c, b) {
            Ok(_) => {},
            Err(e) => {
                return Err(e);
            },
        }
        proof {
            assert((fed_bytes(start) + bytes@.take(i as int)).push(b) =~= fed_bytes(start)
                + bytes@.take(i + 1));
        }
        i += 1;
    }
    proof {
        assert(bytes@.take(n as int) =~= bytes@);
    }
    Ok(c)
}

/// Code lengths of a symbol, by the reading in front of it and what came of reading behind it.
pub fn span_behind(before: u64, after: Result<u64, ZpaqFault>) -> (result: Result<BitSpan, ZpaqFault>)
    ensures
        result == (match after {
            Ok(bits) => Ok::<BitSpan, ZpaqFault>(BitSpan { before, after: bits }),
            Err(e) => Err::<BitSpan, ZpaqFault>(e),
        }),
{
    match after {
        Ok(bits) => Ok(BitSpan { before, after: bits }),
        Err(e) => Err(e),
    }
}

/// Code lengths of a symbol behind the bytes, measured by the compressor that was opened.
pub fn measured(
    opened: Result<zpaq_rs::StreamingCompressor, ZpaqFault>,
    bytes: &[u8],
    symbol: u8,
) -> (result: Result<BitSpan, ZpaqFault>)
    requires
        opened matches Ok(o) ==> fed_bytes(o) == Seq::<u8>::empty(),
    ensures
        match opened {
            Err(e) => result == Err::<BitSpan, ZpaqFault>(e),
            Ok(o) => match result {
                Ok(span) => span_read(made_with(o), bytes@, symbol, span),
                Err(e) => e is Library,
            },
        },
{
    let mut c = match replayed(opened, bytes) {
        Ok(c) => c,
        Err(e) => {
            return Err(e);
        },
    };
    let before: u64 = compressor_bits(&c);
    let ghost start = c;
    proof {
        assert(Seq::<u8>::empty() + bytes@ =~= bytes@);
        assert(bits_read(start) == before);
    }
    let after = match feed_compressor(&mut c, symbol) {
        Ok(_) => Ok(compressor_bits(&c)),
        Err(e) => Err(e),
    };
    proof {
        assert(after matches Ok(bits) ==> bits_read(c) == bits);
    }
    span_behind(before, after)
}

/// The code lengths so far and those that were measured next; a failure is handed on.
pub fn with_span(done: Vec<BitSpan>, next: Result<BitSpan, ZpaqFault>) -> (result: Result<
    Vec<BitSpan>,
    ZpaqFault,
>)
    ensures
        match next {
            Ok(span) => result matches Ok(spans) && spans@ == done@.push(span),
            Err(e) => result == Err::<Vec<BitSpan>, ZpaqFault>(e),
        },
{
    match next {
        Ok(span) => {
            let mut spans = done;
            spans.push(span);
            Ok(spans)
        },
        Err(e) => Err(e),
    }
}

/// Sequential rate model.
pub struct ZpaqRateModel {
    method: String,
    compressor: Option<zpaq_rs::StreamingCompressor>,
    last_bits: u64,
    history: Vec<u8>,
    pending: Option<(u8, BitSpan)>,
}

impl ZpaqRateModel {
    /// Symbols that were taken in.
    pub closed spec fn taken(&self) -> Seq<u8> {
        self.history@
    }

    /// The symbol that was asked for and may be taken in next.
    pub closed spec fn asked(&self) -> Option<u8> {
        match self.pending {
            Some((symbol, span)) => Some(symbol),
            None => None,
        }
    }

    /// Code lengths of the symbol that was asked for.
    pub closed spec fn asked_span(&self) -> BitSpan {
        (self.pending->0).1
    }

    /// Method of the compressor.
    pub closed spec fn method_text(&self) -> Seq<char> {
        self.method@
    }

    /// The compressor, while it is there.
    pub closed spec fn seat(&self) -> Option<zpaq_rs::StreamingCompressor> {
        self.compressor
    }

    /// The last reading.
    pub closed spec fn last_reading(&self) -> u64 {
        self.last_bits
    }

    /// Whether a fault is one that feeding or asking may give: that the compressor is lost where it
    /// is, and no symbol that was asked for has it replaced; else one that fits the method.
    pub open spec fn may_fail(&self, fault: ZpaqFault) -> bool {
        if !self.alive() && self.asked() is None {
            fault is Lost
        } else {
            fault_fits(fault, self.method_text())
        }
    }

    /// Whether the compressor is there: a failure costs it.
    pub open spec fn alive(&self) -> bool {
        self.seat() is Some
    }

    /// The compressor was fed what was taken in, and behind it the symbol that was asked for. The
    /// last reading is the compressor's own.
    pub closed spec fn wf(&self) -> bool {
        &&& self.compressor matches Some(c) ==> fed_bytes(c) == self.history@ + (match self.pending {
            Some((symbol, span)) => seq![symbol],
            None => Seq::empty(),
        }) && self.tuned()
        &&& self.pending matches Some((symbol, span)) ==> span_counted(
            self.method@,
            self.history@,
            symbol,
            span,
        )
    }

    closed spec fn tuned(&self) -> bool {
        self.compressor matches Some(c) ==> made_with(c) == self.method@ && self.last_bits == (
        if fed_bytes(c).len() == 0 {
            0
        } else {
            bits_read(c)
        })
    }

    /// A model without history, around the compressor that was opened. Where none was, the fault is
    /// handed on.
    pub fn with_compressor(
        method: &str,
        opened: Result<zpaq_rs::StreamingCompressor, ZpaqFault>,
    ) -> (result: Result<Self, ZpaqFault>)
        ensures
            match opened {
                Ok(c) => result matches Ok(m) && m.seat() == Some(c) && m.last_reading() == 0
                    && m.taken() == Seq::<u8>::empty() && m.asked() is None && m.method_text()
                    == method@ && (made_with(c) == method@ && fed_bytes(c) == Seq::<u8>::empty()
                    ==> m.wf()),
                Err(e) => result == Err::<Self, ZpaqFault>(e),
            },
    {
        let c = match opened {
            Ok(c) => c,
            Err(e) => {
                return Err(e);
            },
        };
        let m = ZpaqRateModel {
            method: method.to_string(),
            compressor: Some(c),
            last_bits: 0,
            history: Vec::new(),
            pending: None,
        };
        proof {
            assert(m.history@ + Seq::<u8>::empty() =~= Seq::<u8>::empty());
        }
        Ok(m)
    }

    /// A model without history.
    pub fn new(method: &str) -> (result: Result<Self, ZpaqFault>)
        ensures
            result matches Ok(m) ==> m.wf() && m.alive() && m.taken() == Seq::<u8>::empty()
                && m.asked() is None && m.method_text() == method@,
            result matches Err(e) ==> fault_fits(e, method@),
            plain_refusal(method@) matches Some(text) ==> is_refusal(result, text),
    {
        ZpaqRateModel::with_compressor(method, open_compressor(method))
    }

    /// Puts the compressor that was opened in place; it has read nothing. Where none was, there is
    /// none, and the fault is handed on.
    pub fn seated(&mut self, opened: Result<zpaq_rs::StreamingCompressor, ZpaqFault>) -> (result:
        Result<(), ZpaqFault>)
        ensures
            final(self).taken() == old(self).taken(),
            final(self).asked() == old(self).asked(),
            final(self).asked_span() == old(self).asked_span(),
            final(self).method_text() == old(self).method_text(),
            final(self).last_reading() == 0,
            match opened {
                Ok(c) => result is Ok && final(self).seat() == Some(c),
                Err(e) => result == Err::<(), ZpaqFault>(e) && final(self).seat() is None,
            },
    {
        self.last_bits = 0;
        match opened {
            Ok(c) => {
                self.compressor = Some(c);
                Ok(())
            },
            Err(e) => {
                self.compressor = None;
                Err(e)
            },
        }
    }

    /// Puts the compressor that was fed back in place, and gives the readings in front of the symbol
    /// and behind it. Where feeding failed, the compressor is given up, and the fault is handed on.
    pub fn settled(&mut self, c: zpaq_rs::StreamingCompressor, reading: Result<u64, ZpaqFault>) -> (result:
        Result<BitSpan, ZpaqFault>)
        ensures
            final(self).taken() == old(self).taken(),
            final(self).asked() == old(self).asked(),
            final(self).asked_span() == old(self).asked_span(),
            final(self).method_text() == old(self).method_text(),
            match reading {
                Ok(bits) => result == Ok::<BitSpan, ZpaqFault>(
                    BitSpan { before: old(self).last_reading(), after: bits },
                ) && final(self).seat() == Some(c) && final(self).last_reading() == bits,
                Err(e) => result == Err::<BitSpan, ZpaqFault>(e) && final(self).seat() is None,
            },
    {
        let before: u64 = self.last_bits;
        match reading {
            Ok(bits) => {
                self.last_bits = bits;
                self.compressor = Some(c);
            },
            Err(_) => {
                self.compressor = None;
            },
        }
        span_behind(before, reading)
    }

    fn replace_compressor(&mut self) -> (result: Result<(), ZpaqFault>)
        ensures
            final(self).taken() == old(self).taken(),
            final(self).asked() == old(self).asked(),
            final(self).asked_span() == old(self).asked_span(),
            final(self).method_text() == old(self).method_text(),
            result is Ok ==> (final(self).compressor matches Some(c) && fed_bytes(c) == Seq::<
                u8,
            >::empty()) && final(self).tuned(),
            result matches Err(e) ==> final(self).compressor is None && fault_fits(
                e,
                old(self).method_text(),
            ),
            plain_refusal(old(self).method_text()) matches Some(text) ==> is_refusal(result, text),
    {
        self.compressor = None;
        let opened = open_compressor(self.method.as_str());
        self.seated(opened)
    }

    /// Feeds one symbol.
    fn encode(&mut self, symbol: u8) -> (result: Result<BitSpan, ZpaqFault>)
        requires
            old(self).tuned(),
        ensures
            final(self).taken() == old(self).taken(),
            final(self).asked() == old(self).asked(),
            final(self).asked_span() == old(self).asked_span(),
            final(self).method_text() == old(self).method_text(),
            result is Ok ==> (old(self).compressor matches Some(b) && final(self).compressor
                matches Some(c) && fed_bytes(c) == fed_bytes(b).push(symbol)) && final(self).tuned(),
            result matches Ok(span) ==> (old(self).compressor matches Some(b) && span_counted(
                old(self).method@,
                fed_bytes(b),
                symbol,
                span,
            )),
            result matches Err(e) ==> final(self).compressor is None && if old(self).compressor is Some {
                e is Library
            } else {
                e is Lost
            },
    {
        let mut c = match self.compressor.take() {
            Some(c) => c,
            None => {
                return Err(ZpaqFault::Lost);
            },
        };
        let reading = match feed_compressor(&mut c, symbol) {
            Ok(_) => Ok(compressor_bits(&c)),
            Err(e) => Err(e),
        };
        self.settled(c, reading)
    }

    /// Feeds a fresh compressor what was taken in, and forgets the symbol that was asked for.
    fn rebuild(&mut self) -> (result: Result<(), ZpaqFault>)
        requires
            old(self).wf(),
        ensures
            final(self).wf(),
            final(self).taken() == old(self).taken(),
            final(self).method_text() == old(self).method_text(),
            result is Ok ==> final(self).alive() && final(self).asked() is None,
            result matches Err(e) ==> !final(self).alive() && fault_fits(
                e,
                old(self).method_text(),
            ),
    {
        match self.replace_compressor() {
            Ok(_) => {},
            Err(e) => {
                return Err(e);
            },
        }
        let n: usize = self.history.len();
        let mut i: usize = 0;
        proof {
            assert(self.history@.take(0) =~= Seq::<u8>::empty());
        }
        while i < n
            invariant
                i <= n == self.history@.len(),
                self.taken() == old(self).taken(),
                self.method_text() == old(self).method_text(),
                self.asked() == old(self).asked(),
                self.asked_span() == old(self).asked_span(),
                old(self).wf(),
                self.compressor matches Some(c) && fed_bytes(c) == self.history@.take(i as int),
                self.tuned(),
            decreases n - i,
        {
            let symbol: u8 = self.history[i];
            match self.encode(symbol) {
                Ok(_) => {},
                Err(e) => {
                    return Err(e);
                },
            }
            proof {
                assert(self.history@.take(i as int).push(symbol) =~= self.history@.take(i + 1));
            }
            i += 1;
        }
        self.pending = None;
        proof {
            assert(self.history@.take(n as int) =~= self.history@);
            assert(self.history@ + Seq::<u8>::empty() =~= self.history@);
        }
        Ok(())
    }

    /// Begins a stream.
    pub fn begin_stream(&mut self) -> (result: Result<(), ZpaqFault>)
        requires
            old(self).wf(),
        ensures
            final(self).wf(),
            final(self).method_text() == old(self).method_text(),
            final(self).taken() == Seq::<u8>::empty(),
            final(self).asked() is None,
            old(self).taken().len() == 0 && old(self).asked() is None ==> result is Ok
                && *final(self) == *old(self),
            result is Ok && !(old(self).taken().len() == 0 && old(self).asked() is None)
                ==> final(self).alive(),
            result matches Err(e) ==> !final(self).alive() && fault_fits(
                e,
                old(self).method_text(),
            ),
            !(old(self).taken().len() == 0 && old(self).asked() is None) ==> (plain_refusal(
                old(self).method_text(),
            ) matches Some(text) ==> is_refusal(result, text)),
    {
        if self.history.len() == 0 && self.pending.is_none() {
            proof {
                assert(self.history@ =~= Seq::<u8>::empty());
            }
            return Ok(());
        }
        self.reset()
    }

    /// Forgets everything.
    pub fn reset(&mut self) -> (result: Result<(), ZpaqFault>)
        ensures
            final(self).wf(),
            final(self).method_text() == old(self).method_text(),
            final(self).taken() == Seq::<u8>::empty(),
            final(self).asked() is None,
            result is Ok ==> final(self).alive(),
            result matches Err(e) ==> !final(self).alive() && fault_fits(
                e,
                old(self).method_text(),
            ),
            plain_refusal(old(self).method_text()) matches Some(text) ==> is_refusal(result, text),
    {
        let opened = self.replace_compressor();
        self.history.clear();
        self.pending = None;
        proof {
            assert(self.history@ =~= Seq::<u8>::empty());
            assert(self.history@ + Seq::<u8>::empty() =~= Seq::<u8>::empty());
        }
        opened
    }

    /// Code lengths in front of the symbol and behind it. The symbol is not taken in; asked for
    /// again, or taken in next, it is not measured anew.
    pub fn log_prob(&mut self, symbol: u8) -> (result: Result<BitSpan, ZpaqFault>)
        requires
            old(self).wf(),
        ensures
            final(self).wf(),
            final(self).taken() == old(self).taken(),
            final(self).method_text() == old(self).method_text(),
            result matches Ok(span) ==> final(self).asked() == Some(symbol)
                && final(self).asked_span() == span && span_counted(
                final(self).method_text(),
                final(self).taken(),
                symbol,
                span,
            ),
            old(self).asked() == Some(symbol) ==> *final(self) == *old(self) && result
                == Ok::<BitSpan, ZpaqFault>(old(self).asked_span()),
            result is Ok && old(self).asked() != Some(symbol) ==> final(self).alive(),
            result matches Err(e) ==> !final(self).alive() && old(self).may_fail(e),
            !old(self).alive() && old(self).asked() is None ==> result == Err::<BitSpan, ZpaqFault>(
                ZpaqFault::Lost,
            ),
    {
        if let Some((p, span)) = self.pending {
            if p == symbol {
                return Ok(span);
            }
            match self.rebuild() {
                Ok(_) => {},
                Err(e) => {
                    return Err(e);
                },
            }
        }
        let ghost before = self.history@;
        match self.encode(symbol) {
            Ok(span) => {
                self.pending = Some((symbol, span));
                proof {
                    assert((before + Seq::<u8>::empty()).push(symbol) =~= before + seq![symbol]);
                }
                Ok(span)
            },
            Err(e) => Err(e),
        }
    }

    /// Code lengths in front of the symbol and behind it, measured by a compressor of its own, which
    /// is opened with the method of the model. Whether one can be had, and whether it takes the
    /// bytes, the compression library decides.
    pub fn log_prob_from_history(&self, symbol: u8) -> (result: Result<BitSpan, ZpaqFault>)
        ensures
            result matches Ok(span) ==> span_read(self.method_text(), self.taken(), symbol, span),
            result matches Err(e) ==> fault_fits(e, self.method_text()),
            plain_refusal(self.method_text()) matches Some(text) ==> is_refusal(result, text),
    {
        measured(open_compressor(self.method.as_str()), self.history.as_slice(), symbol)
    }

    /// Code lengths of each of the 256 symbols. The model stays as it is.
    pub fn fill_log_probs(&self) -> (result: Result<Vec<BitSpan>, ZpaqFault>)
        ensures
            result matches Ok(spans) ==> spans@.len() == 256 && forall|b: int|
                0 <= b < 256 ==> span_read(
                    self.method_text(),
                    self.taken(),
                    b as u8,
                    #[trigger] spans@[b],
                ),
            result matches Err(e) ==> fault_fits(e, self.method_text()),
            plain_refusal(self.method_text()) matches Some(text) ==> is_refusal(result, text),
    {
        let mut spans: Vec<BitSpan> = Vec::new();
        let mut i: usize = 0;
        while i < 256
            invariant
                i <= 256,
                spans@.len() == i,
                i > 0 ==> plain_refusal(self.method_text()) is None,
                forall|b: int|
                    0 <= b < i ==> span_read(
                        self.method_text(),
                        self.taken(),
                        b as u8,
                        #[trigger] spans@[b],
                    ),
            decreases 256 - i,
        {
            match with_span(spans, self.log_prob_from_history(i as u8)) {
                Ok(more) => {
                    spans = more;
                },
                Err(e) => {
                    return Err(e);
                },
            }
            i += 1;
        }
        Ok(spans)
    }

    /// Takes in one symbol.
    pub fn update(&mut self, symbol: u8) -> (result: Result<(), ZpaqFault>)
        requires
            old(self).wf(),
        ensures
            final(self).wf(),
            final(self).method_text() == old(self).method_text(),
            result is Ok ==> final(self).taken() == old(self).taken().push(symbol)
                && final(self).asked() is None,
            result matches Err(e) ==> final(self).taken() == old(self).taken()
                && !final(self).alive() && old(self).may_fail(e),
            old(self).asked() == Some(symbol) ==> result is Ok && final(self).alive()
                == old(self).alive(),
            result is Ok && old(self).asked() != Some(symbol) ==> final(self).alive(),
            !old(self).alive() && old(self).asked() is None ==> result == Err::<(), ZpaqFault>(
                ZpaqFault::Lost,
            ),
    {
        let ghost before = self.history@;
        if let Some((p, span)) = self.pending {
            if p == symbol {
                self.pending = None;
                self.history.push(symbol);
                proof {
                    assert(before + seq![symbol] =~= before.push(symbol) + Seq::<u8>::empty());
                }
                return Ok(());
            }
            match self.rebuild() {
                Ok(_) => {},
                Err(e) => {
                    return Err(e);
                },
            }
        }
        match self.encode(symbol) {
            Ok(_) => {},
            Err(e) => {
                return Err(e);
            },
        }
        self.history.push(symbol);
        proof {
            assert((before + Seq::<u8>::empty()).push(symbol) =~= before.push(symbol) + Seq::<
                u8,
            >::empty());
        }
        Ok(())
    }

    /// Takes in bytes, and gives the code lengths in front of each of them and behind it.
    pub fn update_and_score(&mut self, data: &[u8]) -> (result: Result<Vec<BitSpan>, ZpaqFault>)
        requires
            old(self).wf(),
        ensures
            final(self).wf(),
            final(self).method_text() == old(self).method_text(),
            result matches Ok(spans) ==> spans@.len() == data@.len() && final(self).taken()
                == old(self).taken() + data@ && (data@.len() > 0 ==> final(self).asked() is None)
                && forall|i: int|
                0 <= i < data@.len() ==> span_counted(
                    old(self).method_text(),
                    old(self).taken() + data@.take(i),
                    data@[i],
                    #[trigger] spans@[i],
                ),
            data@.len() == 0 ==> result is Ok && *final(self) == *old(self),
            result is Ok && data@.len() > 0 ==> final(self).alive(),
            result matches Err(e) ==> !final(self).alive() && old(self).may_fail(e) && exists|k: int|
                0 <= k < data@.len() && final(self).taken() == #[trigger] (old(self).taken()
                    + data@.take(k)),
            data@.len() > 0 && !old(self).alive() && old(self).asked() is None ==> result == Err::<
                Vec<BitSpan>,
                ZpaqFault,
            >(ZpaqFault::Lost),
    {
        let n: usize = data.len();
        let mut spans: Vec<BitSpan> = Vec::new();
        if n == 0 {
            proof {
                assert(self.history@ + data@ =~= self.history@);
            }
            return Ok(spans);
        }
        let ghost start = self.history@;
        proof {
            assert(start + data@.take(0) =~= start);
        }
        if self.pending.is_some() {
            match self.rebuild() {
                Ok(_) => {},
                Err(e) => {
                    return Err(e);
                },
            }
        }
        let mut i: usize = 0;
        while i < n
            invariant
                i <= n == data@.len(),
                self.wf(),
                self.pending is None,
                i > 0 || old(self).alive() || old(self).asked() is Some ==> self.compressor is Some,
                !old(self).alive() && old(self).asked() is None ==> i == 0 && self.compressor is None,
                n > 0,
                self.method@ == old(self).method@,
                self.history@ == start + data@.take(i as int),
                spans@.len() == i,
                start == old(self).history@,
                forall|k: int|
                    0 <= k < i ==> span_counted(
                        old(self).method@,
                        start + data@.take(k),
                        data@[k],
                        #[trigger] spans@[k],
                    ),
            decreases n - i,
        {
            let b: u8 = data[i];
            let ghost before = self.history@;
            match self.encode(b) {
                Ok(span) => {
                    proof {
                        assert(before + Seq::<u8>::empty() =~= before);
                    }
                    spans.push(span);
                },
                Err(e) => {
                    proof {
                        assert(self.taken() == old(self).taken() + data@.take(i as int));
                    }
                    return Err(e);
                },
            }
            self.history.push(b);
            proof {
                assert((before + Seq::<u8>::empty()).push(b) =~= before.push(b) + Seq::<
                    u8,
                >::empty());
                assert(start + data@.take(i + 1) =~= (start + data@.take(i as int)).push(b));
            }
            i += 1;
        }
        proof {
            assert(data@.take(n as int) =~= data@);
        }
        Ok(spans)
    }

    /// The fresh model, with the history of this one taken in and the same symbol asked for. Where
    /// there is neither, it is the fresh model.
    pub fn copied_onto(&self, fresh: Result<Self, ZpaqFault>) -> (result: Result<Self, ZpaqFault>)
        requires
            fresh matches Ok(m) ==> m.wf() && m.alive() && m.taken() == Seq::<u8>::empty()
                && m.asked() is None && m.method_text() == self.method_text(),
        ensures
            fresh is Err ==> result == fresh,
            self.taken().len() == 0 && self.asked() is None ==> result == fresh,
            result matches Ok(copy) ==> copy.wf() && copy.alive() && copy.taken() == self.taken()
                && copy.asked() == self.asked() && copy.method_text() == self.method_text(),
            result matches Ok(copy) ==> (copy.asked() matches Some(symbol) ==> span_counted(
                self.method_text(),
                self.taken(),
                symbol,
                copy.asked_span(),
            )),
            fresh is Ok ==> (result matches Err(e) ==> fault_fits(e, self.method_text())),
    {
        let mut copy = match fresh {
            Ok(m) => m,
            Err(e) => {
                return Err(e);
            },
        };
        match copy.update_and_score(self.history.as_slice()) {
            Ok(_) => {},
            Err(e) => {
                return Err(e);
            },
        }
        proof {
            assert(Seq::<u8>::empty() + self.history@ =~= self.history@);
            assert(copy.history@ =~= self.history@);
        }
        match self.pending {
            None => {},
            Some((symbol, span)) => {
                match copy.log_prob(symbol) {
                    Ok(_) => {},
                    Err(e) => {
                        return Err(e);
                    },
                }
            },
        }
        Ok(copy)
    }

    /// A second model with the same history, and the same symbol asked for. Whether it can be had,
    /// the compression library decides.
    pub fn duplicate(&self) -> (result: Result<Self, ZpaqFault>)
        ensures
            result matches Ok(copy) ==> copy.wf() && copy.alive() && copy.taken() == self.taken()
                && copy.asked() == self.asked() && copy.method_text() == self.method_text(),
            result matches Ok(copy) ==> (copy.asked() matches Some(symbol) ==> span_counted(
                self.method_text(),
                self.taken(),
                symbol,
                copy.asked_span(),
            )),
            result matches Err(e) ==> fault_fits(e, self.method_text()),
            plain_refusal(self.method_text()) matches Some(text) ==> is_refusal(result, text),
    {
        self.copied_onto(ZpaqRateModel::new(self.method.as_str()))
    }
}

/// What to tell of a validation: nothing where a compressor could be had.
pub fn validation_text(outcome: Result<(), ZpaqFault>) -> (result: Result<(), String>)
    ensures
        match outcome {
            Ok(_) => result is Ok,
            Err(e) => result matches Err(text) && text@ == e.text(),
        },
{
    match outcome {
        Ok(_) => Ok(()),
        Err(e) => Err(e.message()),
    }
}

/// Whether there is a compressor made with the method and fed nothing.
pub open spec fn can_be_opened(method: Seq<char>) -> bool {
    exists|c: zpaq_rs::StreamingCompressor| #[trigger]
        made_with(c) == method && fed_bytes(c) == Seq::<u8>::empty()
}

/// Whether a text is that of a fault that fits the method.
pub open spec fn tells_fault(text: Seq<char>, method: Seq<char>) -> bool {
    exists|fault: ZpaqFault| #[trigger] fault_fits(fault, method) && text == fault.text()
}

/// Checks that a method can be streamed. Where the compression library decides, it is either
/// accepted, with a compressor at hand, or refused with the text of the fault.
pub fn validate_zpaq_rate_method(method: &str) -> (result: Result<(), String>)
    ensures
        result is Ok ==> !text::trimmed(method@).contains('\0') && can_be_opened(method@),
        result matches Err(e) ==> tells_fault(e@, method@),
        plain_refusal(method@) matches Some(text) ==> (result matches Err(e) && e@
            == library_fault(text)),
{
    let outcome = match open_compressor(method) {
        Ok(c) => {
            proof {
                assert(made_with(c) == method@);
            }
            Ok(())
        },
        Err(e) => {
            proof {
                assert(fault_fits(e, method@));
            }
            Err(e)
        },
    };
    validation_text(outcome)
}

} // verus!
