//! Sessions that feed a predictor of bytes.

use vstd::prelude::*;
use crate::api::generation;

use crate::api::generation::{GenerationConfig, GenerationRng, GenerationUpdateMode};
use crate::api::predictor::{OnlineBytePredictor, Outcome};
use crate::text::{push_text, string_of};

verus! {

/// Why a request to a backend failed.
#[derive(Debug)]
pub enum ApiError {
    /// The backend cannot be had as it is described.
    InvalidBackendConfig(String),
    /// The backend failed at work.
    Runtime(String),
}

/// [`ApiError`] as a mathematical object.
#[verifier::ext_equal]
pub enum ApiFault {
    InvalidBackendConfig(Seq<char>),
    Runtime(Seq<char>),
}

impl View for ApiError {
    type V = ApiFault;

    open spec fn view(&self) -> ApiFault {
        match self {
            ApiError::InvalidBackendConfig(e) => ApiFault::InvalidBackendConfig(e@),
            ApiError::Runtime(e) => ApiFault::Runtime(e@),
        }
    }
}

/// Text of a fault.
pub open spec fn api_text(fault: ApiFault) -> Seq<char> {
    match fault {
        ApiFault::InvalidBackendConfig(e) => e,
        ApiFault::Runtime(e) => e,
    }
}

impl ApiError {
    /// What to tell the user.
    pub fn message(&self) -> (text: String)
        ensures
            text@ == api_text(self@),
    {
        let mut out: Vec<char> = Vec::new();
        match self {
            ApiError::InvalidBackendConfig(e) => push_text(&mut out, e.as_str()),
            ApiError::Runtime(e) => push_text(&mut out, e.as_str()),
        }
        proof {
            assert(out@ =~= api_text(self@));
        }
        string_of(&out)
    }
}

/// State after symbols.
pub open spec fn after_symbols<P: OnlineBytePredictor>(
    state: P::State,
    data: Seq<u8>,
    frozen: bool,
) -> P::State
    decreases data.len(),
{
    if data.len() == 0 {
        state
    } else {
        P::after_symbol(
            after_symbols::<P>(state, data.drop_last(), frozen),
            data.last(),
            frozen,
        )
    }
}

/// Whether a result is what an operation of the predictor says.
pub open spec fn runs<S>(result: Result<(), ApiError>, outcome: Outcome<S>) -> bool {
    match outcome.error {
        None => result is Ok,
        Some(text) => result matches Err(e) && e@ == ApiFault::Runtime(text),
    }
}

/// Something that picks a byte from a distribution, as a configuration says and with numbers that
/// it draws from a generator.
///
/// Each picker says what it picks and how far it drives the generator; of one that does not,
/// nothing is known.
pub trait BytePicker<T>: Sized {
    /// The byte that is picked.
    open spec fn picked(&self, table: T, config: GenerationConfig, rng: GenerationRng) -> u8 {
        (vstd::pervasive::arbitrary::<
            spec_fn(Self, T, GenerationConfig, GenerationRng) -> u8,
        >())(*self, table, config, rng)
    }

    /// The generator after a byte was picked.
    open spec fn after_pick(
        &self,
        table: T,
        config: GenerationConfig,
        rng: GenerationRng,
    ) -> GenerationRng {
        (vstd::pervasive::arbitrary::<
            spec_fn(Self, T, GenerationConfig, GenerationRng) -> GenerationRng,
        >())(*self, table, config, rng)
    }

    /// Picks a byte.
    fn pick(&self, table: &T, config: GenerationConfig, rng: &mut GenerationRng) -> (b: u8)
        ensures
            b == self.picked(*table, config, *old(rng)),
            *final(rng) == self.after_pick(*table, config, *old(rng)),
    ;
}

/// Whether picked bytes are only conditioned on.
pub open spec fn freezes(config: GenerationConfig) -> bool {
    config.update_mode == GenerationUpdateMode::Frozen
}

/// How far a generation is.
#[verifier::ext_equal]
pub struct GenerationRun<S> {
    /// State of the predictor.
    pub state: S,
    /// The generator of numbers.
    pub rng: GenerationRng,
    /// The bytes so far.
    pub out: Seq<u8>,
}

/// One byte more: it is picked from the distribution that the predictor gives, and then fitted or
/// conditioned on.
pub open spec fn run_further<P: OnlineBytePredictor, K: BytePicker<P::Table>>(
    run: GenerationRun<P::State>,
    picker: K,
    config: GenerationConfig,
) -> GenerationRun<P::State> {
    let frozen = freezes(config);
    let table = P::table_in(run.state, frozen);
    let byte = picker.picked(table, config, run.rng);
    GenerationRun {
        state: P::after_symbol(run.state, byte, frozen),
        rng: picker.after_pick(table, config, run.rng),
        out: run.out.push(byte),
    }
}

/// A generation of `bytes` bytes, with a generator of numbers that begins at the seed.
pub open spec fn generation_run<P: OnlineBytePredictor, K: BytePicker<P::Table>>(
    state: P::State,
    picker: K,
    bytes: nat,
    config: GenerationConfig,
) -> GenerationRun<P::State>
    decreases bytes,
{
    if bytes == 0 {
        GenerationRun { state, rng: generation::seeded(config.seed), out: Seq::empty() }
    } else {
        run_further::<P, K>(
            generation_run::<P, K>(state, picker, (bytes - 1) as nat, config),
            picker,
            config,
        )
    }
}

/// The bytes of a generation.
pub open spec fn generated_bytes<P: OnlineBytePredictor, K: BytePicker<P::Table>>(
    state: P::State,
    picker: K,
    bytes: nat,
    config: GenerationConfig,
) -> Seq<u8> {
    generation_run::<P, K>(state, picker, bytes, config).out
}

/// A generation gives as many bytes as are asked for, and leaves the predictor as observing them
/// would where they are fitted, and as conditioning on them would where they are not. One of no
/// bytes leaves it alone.
pub proof fn law_generation_as_given<P: OnlineBytePredictor, K: BytePicker<P::Table>>(
    state: P::State,
    picker: K,
    bytes: nat,
    config: GenerationConfig,
)
    ensures
        generated_bytes::<P, K>(state, picker, bytes, config).len() == bytes,
        generation_run::<P, K>(state, picker, bytes, config).state == after_symbols::<P>(
            state,
            generated_bytes::<P, K>(state, picker, bytes, config),
            freezes(config),
        ),
    decreases bytes,
{
    if bytes > 0 {
        let before = generation_run::<P, K>(state, picker, (bytes - 1) as nat, config);
        law_generation_as_given::<P, K>(state, picker, (bytes - 1) as nat, config);
        let after = run_further::<P, K>(before, picker, config);
        assert(after.out.drop_last() =~= before.out);
    }
}

/// Each byte of a generation is what is picked behind the bytes before it: a shorter generation
/// gives the front of a longer one.
pub proof fn law_generation_grows<P: OnlineBytePredictor, K: BytePicker<P::Table>>(
    state: P::State,
    picker: K,
    fewer: nat,
    bytes: nat,
    config: GenerationConfig,
)
    requires
        fewer <= bytes,
    ensures
        generated_bytes::<P, K>(state, picker, fewer, config) == generated_bytes::<P, K>(
            state,
            picker,
            bytes,
            config,
        ).take(fewer as int),
    decreases bytes,
{
    law_generation_as_given::<P, K>(state, picker, bytes, config);
    if fewer < bytes {
        law_generation_grows::<P, K>(state, picker, fewer, (bytes - 1) as nat, config);
        law_generation_as_given::<P, K>(state, picker, (bytes - 1) as nat, config);
    }
    assert(generated_bytes::<P, K>(state, picker, fewer, config) =~= generated_bytes::<P, K>(
        state,
        picker,
        bytes,
        config,
    ).take(fewer as int));
}

/// Each byte of a generation is picked from the distribution that the predictor gives behind the bytes
/// before it, fitted or conditioned on, with the numbers that the bytes before it left; the first one
/// with those that the seed begins.
pub proof fn law_each_byte_is_picked<P: OnlineBytePredictor, K: BytePicker<P::Table>>(
    state: P::State,
    picker: K,
    bytes: nat,
    config: GenerationConfig,
    k: nat,
)
    requires
        k < bytes,
    ensures
        ({
            let out = generated_bytes::<P, K>(state, picker, bytes, config);
            let frozen = config.update_mode == GenerationUpdateMode::Frozen;
            let before = after_symbols::<P>(state, out.take(k as int), frozen);
            let table = P::table_in(before, frozen);
            let rng = generation_run::<P, K>(state, picker, k, config).rng;
            &&& k < out.len() && out[k as int] == picker.picked(table, config, rng)
            &&& generation_run::<P, K>(state, picker, k + 1, config).rng == picker.after_pick(
                table,
                config,
                rng,
            )
            &&& k == 0 ==> rng == generation::seeded(config.seed)
        }),
{
    law_generation_as_given::<P, K>(state, picker, bytes, config);
    law_generation_as_given::<P, K>(state, picker, k, config);
    law_generation_as_given::<P, K>(state, picker, k + 1, config);
    law_generation_grows::<P, K>(state, picker, k, bytes, config);
    law_generation_grows::<P, K>(state, picker, k + 1, bytes, config);
    let out = generated_bytes::<P, K>(state, picker, bytes, config);
    assert(out.take((k + 1) as int)[k as int] == out[k as int]);
}

/// Symbols in two runs are the symbols of both.
pub proof fn law_symbols_join<P: OnlineBytePredictor>(
    state: P::State,
    one: Seq<u8>,
    two: Seq<u8>,
    frozen: bool,
)
    ensures
        after_symbols::<P>(after_symbols::<P>(state, one, frozen), two, frozen)
            == after_symbols::<P>(state, one + two, frozen),
    decreases two.len(),
{
    if two.len() == 0 {
        assert(one + two =~= one);
    } else {
        law_symbols_join::<P>(state, one, two.drop_last(), frozen);
        assert((one + two).drop_last() =~= one + two.drop_last());
    }
}

/// A predictor of bytes under way.
pub struct RateBackendSession<P: OnlineBytePredictor> {
    /// The predictor.
    pub predictor: P,
}

impl<P: OnlineBytePredictor> RateBackendSession<P> {
    /// A session with a predictor, or with the reason why there is none.
    pub fn from_backend(built: Result<P, String>, total_symbols: Option<u64>) -> (result: Result<
        Self,
        ApiError,
    >)
        ensures
            match built {
                Err(text) => result matches Err(e) && e@ == ApiFault::InvalidBackendConfig(text@),
                Ok(predictor) => {
                    let o = P::stream_started(predictor.state(), total_symbols);
                    match o.error {
                        Some(text) => result matches Err(e) && e@ == ApiFault::Runtime(text),
                        None => result matches Ok(session) && session.predictor.state() == o.state,
                    }
                },
            },
    {
        let mut predictor = match built {
            Ok(p) => p,
            Err(e) => {
                return Err(ApiError::InvalidBackendConfig(e));
            },
        };
        match predictor.begin_stream(total_symbols) {
            Ok(_) => Ok(RateBackendSession { predictor }),
            Err(e) => Err(ApiError::Runtime(e)),
        }
    }

    /// Fits bytes.
    pub fn observe(&mut self, data: &[u8])
        ensures
            final(self).predictor.state() == after_symbols::<P>(
                old(self).predictor.state(),
                data@,
                false,
            ),
    {
        let n: usize = data.len();
        let ghost start = self.predictor.state();
        let mut i: usize = 0;
        while i < n
            invariant
                i <= n == data@.len(),
                self.predictor.state() == after_symbols::<P>(start, data@.take(i as int), false),
            decreases n - i,
        {
            self.predictor.update(data[i]);
            proof {
                assert(data@.take(i + 1).drop_last() =~= data@.take(i as int));
            }
            i += 1;
        }
        proof {
            assert(data@.take(n as int) =~= data@);
        }
    }

    /// Conditions on bytes.
    pub fn condition(&mut self, data: &[u8])
        ensures
            final(self).predictor.state() == after_symbols::<P>(
                old(self).predictor.state(),
                data@,
                true,
            ),
    {
        let n: usize = data.len();
        let ghost start = self.predictor.state();
        let mut i: usize = 0;
        while i < n
            invariant
                i <= n == data@.len(),
                self.predictor.state() == after_symbols::<P>(start, data@.take(i as int), true),
            decreases n - i,
        {
            self.predictor.update_frozen(data[i]);
            proof {
                assert(data@.take(i + 1).drop_last() =~= data@.take(i as int));
            }
            i += 1;
        }
        proof {
            assert(data@.take(n as int) =~= data@);
        }
    }

    /// Forgets what was conditioned on; what was learned stays.
    pub fn reset_frozen(&mut self, total_symbols: Option<u64>) -> (result: Result<(), ApiError>)
        ensures
            runs(result, P::conditioning_reset(old(self).predictor.state(), total_symbols)),
            final(self).predictor.state() == P::conditioning_reset(
                old(self).predictor.state(),
                total_symbols,
            ).state,
    {
        match self.predictor.reset_frozen(total_symbols) {
            Ok(_) => Ok(()),
            Err(e) => Err(ApiError::Runtime(e)),
        }
    }

    /// Begins a new stream, in the way that suits the predictor.
    pub fn begin_stream(&mut self, total_symbols: Option<u64>) -> (result: Result<(), ApiError>)
        ensures
            runs(result, P::stream_restarted(old(self).predictor.state(), total_symbols)),
            final(self).predictor.state() == P::stream_restarted(
                old(self).predictor.state(),
                total_symbols,
            ).state,
    {
        match self.predictor.begin_fresh_stream(total_symbols) {
            Ok(_) => Ok(()),
            Err(e) => Err(ApiError::Runtime(e)),
        }
    }

    /// Goes on by `bytes` bytes, each picked from the distribution in front of it.
    pub fn generate_bytes<K: BytePicker<P::Table>>(
        &mut self,
        bytes: usize,
        config: GenerationConfig,
        picker: &K,
    ) -> (out: Vec<u8>)
        ensures
            out@ == generated_bytes::<P, K>(
                old(self).predictor.state(),
                *picker,
                bytes as nat,
                config,
            ),
            final(self).predictor.state() == generation_run::<P, K>(
                old(self).predictor.state(),
                *picker,
                bytes as nat,
                config,
            ).state,
            out@.len() == bytes,
            final(self).predictor.state() == after_symbols::<P>(
                old(self).predictor.state(),
                out@,
                freezes(config),
            ),
    {
        let ghost start = self.predictor.state();
        let frozen: bool = config.update_mode == GenerationUpdateMode::Frozen;
        let mut rng = GenerationRng::new(config.seed);
        let mut out: Vec<u8> = Vec::new();
        let mut i: usize = 0;
        while i < bytes
            invariant
                i <= bytes,
                frozen == freezes(config),
                generation_run::<P, K>(start, *picker, i as nat, config) == (GenerationRun {
                    state: self.predictor.state(),
                    rng,
                    out: out@,
                }),
            decreases bytes - i,
        {
            let table = self.predictor.table(frozen);
            let byte: u8 = picker.pick(&table, config, &mut rng);
            if frozen {
                self.predictor.update_frozen(byte);
            } else {
                self.predictor.update(byte);
            }
            out.push(byte);
            i += 1;
        }
        proof {
            law_generation_as_given::<P, K>(start, *picker, bytes as nat, config);
        }
        out
    }

    /// Ends the stream.
    pub fn finish(&mut self) -> (result: Result<(), ApiError>)
        ensures
            runs(result, P::stream_ended(old(self).predictor.state())),
            final(self).predictor.state() == P::stream_ended(old(self).predictor.state()).state,
    {
        match self.predictor.finish_stream() {
            Ok(_) => Ok(()),
            Err(e) => Err(ApiError::Runtime(e)),
        }
    }
}

} // verus!
