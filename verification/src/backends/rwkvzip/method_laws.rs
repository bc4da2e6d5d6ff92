//! Methods are written out and read back without loss.

use vstd::prelude::*;
use crate::backends::rwkvzip::sidecar;
use crate::backends::policy_laws;
use crate::backends::method_path;
use crate::backends::llm_policy;
use crate::text_forms;
use crate::text;
use crate::reals;
use crate::real_forms;
use crate::backends::rwkvzip::method;
use crate::backends::policy_forms;
use crate::backends::llm_policy::PolicyModel;
use crate::backends::policy_error::ErrorModel;
use crate::backends::rwkvzip::method::{ConfigModel, MethodErrorModel, OnlineTrainMode, SpecModel};

verus! {

// ---------------------------------------------------------------------------------------
// Splitting at a character
// ---------------------------------------------------------------------------------------

proof fn lemma_found_at(s: Seq<char>, c: char, from: int, at: int)
    requires
        0 <= from <= at <= s.len(),
        forall|i: int| from <= i < at ==> #[trigger] s[i] != c,
        at < s.len() ==> s[at] == c,
    ensures
        text::index_of_char(s, c, from) == at,
    decreases at - from,
{
    if from < at {
        lemma_found_at(s, c, from + 1, at);
    }
}

/// A text without the character is its only piece.
pub proof fn lemma_one_piece(s: Seq<char>, c: char, from: int)
    requires
        0 <= from <= s.len(),
        forall|i: int| from <= i < s.len() ==> #[trigger] s[i] != c,
    ensures
        text::split_pieces(s, c, from) == seq![s.subrange(from, s.len() as int)],
{
    lemma_found_at(s, c, from, s.len() as int);
}

/// A piece that is put behind the character is one more piece.
pub proof fn lemma_one_more_piece(x: Seq<char>, c: char, y: Seq<char>, from: int)
    requires
        0 <= from <= x.len(),
        text_forms::lacks(y, c),
    ensures
        text::split_pieces(x + seq![c] + y, c, from) == text::split_pieces(x, c, from).push(y),
    decreases x.len() - from,
{
    let s = x + seq![c] + y;
    text::lemma_index_of_char_bounds(x, c, from);
    let i = text::index_of_char(x, c, from);
    assert forall|k: int| from <= k < i implies #[trigger] s[k] != c by {
        assert(s[k] == x[k]);
    }
    assert(s[i] == c);
    lemma_found_at(s, c, from, i);
    assert(s.subrange(from, i) =~= x.subrange(from, i));
    if i < x.len() {
        lemma_one_more_piece(x, c, y, i + 1);
        assert(text::split_pieces(s, c, from) =~= text::split_pieces(x, c, from).push(y));
    } else {
        assert forall|k: int| i + 1 <= k < s.len() implies #[trigger] s[k] != c by {
            assert(s[k] == y[k - i - 1]);
        }
        lemma_one_piece(s, c, i + 1);
        assert(s.subrange(i + 1, s.len() as int) =~= y);
        assert(text::split_pieces(s, c, from) =~= text::split_pieces(x, c, from).push(y));
    }
}

proof fn lemma_listed_pieces(args: Seq<Seq<char>>, n: int)
    requires
        1 <= n <= args.len(),
        forall|i: int| 0 <= i < n ==> text_forms::lacks(#[trigger] args[i], ','),
    ensures
        text::split_pieces(policy_forms::listed(args, n), ',', 0) == args.take(n),
    decreases n,
{
    assert(text_forms::lacks(args[n - 1], ','));
    if n == 1 {
        lemma_one_piece(args[0], ',', 0);
        assert(args[0].subrange(0, args[0].len() as int) =~= args[0]);
        assert(args.take(1) =~= seq![args[0]]);
    } else {
        lemma_listed_pieces(args, n - 1);
        lemma_one_more_piece(policy_forms::listed(args, n - 1), ',', args[n - 1], 0);
        assert(args.take(n - 1).push(args[n - 1]) =~= args.take(n));
    }
}

proof fn lemma_listed_lacks(args: Seq<Seq<char>>, n: int, c: char)
    requires
        1 <= n <= args.len(),
        c != ',',
        forall|i: int| 0 <= i < n ==> text_forms::lacks(#[trigger] args[i], c),
    ensures
        text_forms::lacks(policy_forms::listed(args, n), c),
    decreases n,
{
    assert(text_forms::lacks(args[n - 1], c));
    if n > 1 {
        lemma_listed_lacks(args, n - 1, c);
        let x = policy_forms::listed(args, n - 1);
        let s = policy_forms::listed(args, n);
        assert forall|i: int| 0 <= i < s.len() implies #[trigger] s[i] != c by {
            if i < x.len() {
                assert(s[i] == x[i]);
            } else if i > x.len() {
                assert(s[i] == args[n - 1][i - x.len() - 1]);
            }
        }
    }
}

// ---------------------------------------------------------------------------------------
// Configurations
// ---------------------------------------------------------------------------------------

/// A configuration as it is read, with a stride that is not zero.
pub open spec fn config_ok(cfg: ConfigModel) -> bool {
    &&& cfg.hidden <= usize::MAX
    &&& cfg.layers <= usize::MAX
    &&& cfg.intermediate <= usize::MAX
    &&& cfg.decay_rank <= usize::MAX
    &&& cfg.a_rank <= usize::MAX
    &&& cfg.v_rank <= usize::MAX
    &&& cfg.g_rank <= usize::MAX
    &&& cfg.seed <= u64::MAX
    &&& reals::is_real(cfg.lr)
    &&& reals::shown_real(cfg.lr, false) == cfg.lr
    &&& real_forms::number_text(cfg.lr)
    &&& cfg.lr.len() > 0
    &&& 1 <= cfg.stride <= usize::MAX
}

/// A text that can stand for a setting.
spec fn setting_form(s: Seq<char>) -> bool {
    policy_forms::argument_form(s) && text_forms::lacks(s, ';')
}

/// One setting is taken off the front.
#[verifier::spinoff_prover]
proof fn lemma_setting_taken(
    cfg: ConfigModel,
    pieces: Seq<Seq<char>>,
    i: int,
    k: Seq<char>,
    v: Seq<char>,
    next: ConfigModel,
)
    requires
        0 <= i < pieces.len(),
        text::trimmed(pieces[i]).len() > 0,
        text::cut_char(text::trimmed(pieces[i]), '=') == Some((k, v)),
        method::with_setting(cfg, text::lowered(text::trimmed(k)), text::trimmed(v)) == Ok::<
            ConfigModel,
            MethodErrorModel,
        >(next),
    ensures
        method::with_settings(cfg, pieces, i) == method::with_settings(next, pieces, i + 1),
{
}

/// What a setting is made of.
proof fn lemma_setting_form(key: Seq<char>, val: Seq<char>)
    requires
        policy_forms::key_form(key),
        setting_form(key),
        setting_form(val),
    ensures
        ({
            let arg = policy_forms::argument(key, val);
            &&& text_forms::lacks(arg, ',')
            &&& text_forms::lacks(arg, ';')
            &&& arg.len() > 0
            &&& text_forms::tight(arg)
            &&& arg.contains('=')
        }),
{
    let arg = policy_forms::argument(key, val);
    assert forall|k: int| 0 <= k < arg.len() implies #[trigger] arg[k] != ',' && arg[k] != ';' by {
        if k < key.len() {
            assert(arg[k] == key[k]);
        } else if k > key.len() {
            assert(arg[k] == val[k - key.len() - 1]);
        }
    }
    assert(arg[0] == key[0]);
    assert(arg.last() == val.last());
    assert(arg[key.len() as int] == '=');
}

/// A setting is read as its key and its value.
#[verifier::spinoff_prover]
proof fn lemma_setting_step(
    cfg: ConfigModel,
    pieces: Seq<Seq<char>>,
    i: int,
    key: Seq<char>,
    val: Seq<char>,
    next: ConfigModel,
)
    requires
        0 <= i < pieces.len(),
        pieces[i] == policy_forms::argument(key, val),
        policy_forms::key_form(key),
        setting_form(key),
        setting_form(val),
        method::with_setting(cfg, key, val) == Ok::<ConfigModel, MethodErrorModel>(next),
    ensures
        method::with_settings(cfg, pieces, i) == method::with_settings(next, pieces, i + 1),
        text_forms::lacks(pieces[i], ','),
        text_forms::lacks(pieces[i], ';'),
        pieces[i].len() > 0,
        text_forms::tight(pieces[i]),
        pieces[i].contains('='),
{
    policy_forms::lemma_argument(key, val);
    lemma_setting_form(key, val);
    lemma_setting_taken(cfg, pieces, i, key, val, next);
}

proof fn lemma_decimal_setting(n: nat)
    ensures
        setting_form(text::decimal(n)),
{
    policy_forms::lemma_decimal_argument(n);
    text_forms::lemma_decimal(n);
    let s = text::decimal(n);
    assert forall|i: int| 0 <= i < s.len() implies #[trigger] s[i] != ';' by {
        assert(text::is_digit(s[i]));
    }
}

proof fn lemma_number_setting(s: Seq<char>)
    requires
        real_forms::number_text(s),
        s.len() > 0,
    ensures
        setting_form(s),
{
    policy_forms::lemma_number_argument(s);
    assert forall|i: int| 0 <= i < s.len() implies #[trigger] s[i] != ';' by {
        assert(real_forms::number_char(s[i]));
    }
}

proof fn lemma_mode_setting(mode: OnlineTrainMode)
    ensures
        setting_form(method::train_mode_text(mode)),
        method::train_mode_of(method::train_mode_text(mode)) == Ok::<OnlineTrainMode, MethodErrorModel>(mode),
{
    reveal_strlit("none");
    reveal_strlit("sgd");
    reveal_strlit("adam");
    reveal_strlit("off");
    reveal_strlit("0");
    reveal_strlit("1");
    reveal_strlit("2");
    let t = method::train_mode_text(mode);
    text_forms::lemma_trimmed_tight(t);
    assert(text::lowered("none"@) =~= "none"@);
    assert(text::lowered("sgd"@) =~= "sgd"@);
    assert(text::lowered("adam"@) =~= "adam"@);
    assert("none"@[0] == 'n');
    assert("sgd"@[0] == 's');
    assert("off"@[0] == 'o');
    assert("adam"@[0] == 'a');
}

proof fn lemma_set_hidden(cfg: ConfigModel, n: nat)
    requires
        n <= usize::MAX,
    ensures
        policy_forms::key_form("hidden"@),
        setting_form("hidden"@),
        method::with_setting(cfg, "hidden"@, text::decimal(n)) == Ok::<ConfigModel, MethodErrorModel>(ConfigModel { hidden: n, ..cfg }),
{
    reveal_strlit("seed");
    reveal_strlit("lr");
    reveal_strlit("train");
    reveal_strlit("train_mode");
    reveal_strlit("hidden");
    reveal_strlit("layers");
    reveal_strlit("intermediate");
    reveal_strlit("decay_rank");
    reveal_strlit("a_rank");
    reveal_strlit("v_rank");
    reveal_strlit("g_rank");
    reveal_strlit("stride");
    assert(text::lowered("hidden"@) =~= "hidden"@);
    assert("hidden"@[0] != "layers"@[0]);
    assert("hidden"@[0] != "a_rank"@[0]);
    assert("hidden"@[0] != "v_rank"@[0]);
    assert("hidden"@[0] != "g_rank"@[0]);
    assert("hidden"@[0] != "stride"@[0]);
    text_forms::lemma_decimal_parsed(n, usize::MAX as nat);
}

proof fn lemma_set_layers(cfg: ConfigModel, n: nat)
    requires
        n <= usize::MAX,
    ensures
        policy_forms::key_form("layers"@),
        setting_form("layers"@),
        method::with_setting(cfg, "layers"@, text::decimal(n)) == Ok::<ConfigModel, MethodErrorModel>(ConfigModel { layers: n, ..cfg }),
{
    reveal_strlit("seed");
    reveal_strlit("lr");
    reveal_strlit("train");
    reveal_strlit("train_mode");
    reveal_strlit("hidden");
    reveal_strlit("layers");
    reveal_strlit("intermediate");
    reveal_strlit("decay_rank");
    reveal_strlit("a_rank");
    reveal_strlit("v_rank");
    reveal_strlit("g_rank");
    reveal_strlit("stride");
    assert(text::lowered("layers"@) =~= "layers"@);
    assert("layers"@[0] != "hidden"@[0]);
    assert("layers"@[0] != "a_rank"@[0]);
    assert("layers"@[0] != "v_rank"@[0]);
    assert("layers"@[0] != "g_rank"@[0]);
    assert("layers"@[0] != "stride"@[0]);
    text_forms::lemma_decimal_parsed(n, usize::MAX as nat);
}

proof fn lemma_set_intermediate(cfg: ConfigModel, n: nat)
    requires
        n <= usize::MAX,
    ensures
        policy_forms::key_form("intermediate"@),
        setting_form("intermediate"@),
        method::with_setting(cfg, "intermediate"@, text::decimal(n)) == Ok::<ConfigModel, MethodErrorModel>(ConfigModel { intermediate: n, ..cfg }),
{
    reveal_strlit("seed");
    reveal_strlit("lr");
    reveal_strlit("train");
    reveal_strlit("train_mode");
    reveal_strlit("hidden");
    reveal_strlit("layers");
    reveal_strlit("intermediate");
    reveal_strlit("decay_rank");
    reveal_strlit("a_rank");
    reveal_strlit("v_rank");
    reveal_strlit("g_rank");
    reveal_strlit("stride");
    assert(text::lowered("intermediate"@) =~= "intermediate"@);
    text_forms::lemma_decimal_parsed(n, usize::MAX as nat);
}

proof fn lemma_set_decay_rank(cfg: ConfigModel, n: nat)
    requires
        n <= usize::MAX,
    ensures
        policy_forms::key_form("decay_rank"@),
        setting_form("decay_rank"@),
        method::with_setting(cfg, "decay_rank"@, text::decimal(n)) == Ok::<ConfigModel, MethodErrorModel>(ConfigModel { decay_rank: n, ..cfg }),
{
    reveal_strlit("seed");
    reveal_strlit("lr");
    reveal_strlit("train");
    reveal_strlit("train_mode");
    reveal_strlit("hidden");
    reveal_strlit("layers");
    reveal_strlit("intermediate");
    reveal_strlit("decay_rank");
    reveal_strlit("a_rank");
    reveal_strlit("v_rank");
    reveal_strlit("g_rank");
    reveal_strlit("stride");
    assert(text::lowered("decay_rank"@) =~= "decay_rank"@);
    assert("decay_rank"@[0] != "train_mode"@[0]);
    text_forms::lemma_decimal_parsed(n, usize::MAX as nat);
}

proof fn lemma_set_a_rank(cfg: ConfigModel, n: nat)
    requires
        n <= usize::MAX,
    ensures
        policy_forms::key_form("a_rank"@),
        setting_form("a_rank"@),
        method::with_setting(cfg, "a_rank"@, text::decimal(n)) == Ok::<ConfigModel, MethodErrorModel>(ConfigModel { a_rank: n, ..cfg }),
{
    reveal_strlit("seed");
    reveal_strlit("lr");
    reveal_strlit("train");
    reveal_strlit("train_mode");
    reveal_strlit("hidden");
    reveal_strlit("layers");
    reveal_strlit("intermediate");
    reveal_strlit("decay_rank");
    reveal_strlit("a_rank");
    reveal_strlit("v_rank");
    reveal_strlit("g_rank");
    reveal_strlit("stride");
    assert(text::lowered("a_rank"@) =~= "a_rank"@);
    assert("a_rank"@[0] != "hidden"@[0]);
    assert("a_rank"@[0] != "layers"@[0]);
    assert("a_rank"@[0] != "v_rank"@[0]);
    assert("a_rank"@[0] != "g_rank"@[0]);
    assert("a_rank"@[0] != "stride"@[0]);
    text_forms::lemma_decimal_parsed(n, usize::MAX as nat);
}

proof fn lemma_set_v_rank(cfg: ConfigModel, n: nat)
    requires
        n <= usize::MAX,
    ensures
        policy_forms::key_form("v_rank"@),
        setting_form("v_rank"@),
        method::with_setting(cfg, "v_rank"@, text::decimal(n)) == Ok::<ConfigModel, MethodErrorModel>(ConfigModel { v_rank: n, ..cfg }),
{
    reveal_strlit("seed");
    reveal_strlit("lr");
    reveal_strlit("train");
    reveal_strlit("train_mode");
    reveal_strlit("hidden");
    reveal_strlit("layers");
    reveal_strlit("intermediate");
    reveal_strlit("decay_rank");
    reveal_strlit("a_rank");
    reveal_strlit("v_rank");
    reveal_strlit("g_rank");
    reveal_strlit("stride");
    assert(text::lowered("v_rank"@) =~= "v_rank"@);
    assert("v_rank"@[0] != "hidden"@[0]);
    assert("v_rank"@[0] != "layers"@[0]);
    assert("v_rank"@[0] != "a_rank"@[0]);
    assert("v_rank"@[0] != "g_rank"@[0]);
    assert("v_rank"@[0] != "stride"@[0]);
    text_forms::lemma_decimal_parsed(n, usize::MAX as nat);
}

proof fn lemma_set_g_rank(cfg: ConfigModel, n: nat)
    requires
        n <= usize::MAX,
    ensures
        policy_forms::key_form("g_rank"@),
        setting_form("g_rank"@),
        method::with_setting(cfg, "g_rank"@, text::decimal(n)) == Ok::<ConfigModel, MethodErrorModel>(ConfigModel { g_rank: n, ..cfg }),
{
    reveal_strlit("seed");
    reveal_strlit("lr");
    reveal_strlit("train");
    reveal_strlit("train_mode");
    reveal_strlit("hidden");
    reveal_strlit("layers");
    reveal_strlit("intermediate");
    reveal_strlit("decay_rank");
    reveal_strlit("a_rank");
    reveal_strlit("v_rank");
    reveal_strlit("g_rank");
    reveal_strlit("stride");
    assert(text::lowered("g_rank"@) =~= "g_rank"@);
    assert("g_rank"@[0] != "hidden"@[0]);
    assert("g_rank"@[0] != "layers"@[0]);
    assert("g_rank"@[0] != "a_rank"@[0]);
    assert("g_rank"@[0] != "v_rank"@[0]);
    assert("g_rank"@[0] != "stride"@[0]);
    text_forms::lemma_decimal_parsed(n, usize::MAX as nat);
}

proof fn lemma_set_seed(cfg: ConfigModel, n: nat)
    requires
        n <= u64::MAX,
    ensures
        policy_forms::key_form("seed"@),
        setting_form("seed"@),
        method::with_setting(cfg, "seed"@, text::decimal(n)) == Ok::<ConfigModel, MethodErrorModel>(ConfigModel { seed: n, ..cfg }),
{
    reveal_strlit("seed");
    reveal_strlit("lr");
    reveal_strlit("train");
    reveal_strlit("train_mode");
    reveal_strlit("hidden");
    reveal_strlit("layers");
    reveal_strlit("intermediate");
    reveal_strlit("decay_rank");
    reveal_strlit("a_rank");
    reveal_strlit("v_rank");
    reveal_strlit("g_rank");
    reveal_strlit("stride");
    assert(text::lowered("seed"@) =~= "seed"@);
    text_forms::lemma_decimal_parsed(n, u64::MAX as nat);
}

proof fn lemma_set_train(cfg: ConfigModel, mode: OnlineTrainMode)
    ensures
        policy_forms::key_form("train"@),
        setting_form("train"@),
        method::with_setting(cfg, "train"@, method::train_mode_text(mode)) == Ok::<ConfigModel, MethodErrorModel>(ConfigModel { train_mode: mode, ..cfg }),
{
    reveal_strlit("seed");
    reveal_strlit("lr");
    reveal_strlit("train");
    reveal_strlit("train_mode");
    reveal_strlit("hidden");
    reveal_strlit("layers");
    reveal_strlit("intermediate");
    reveal_strlit("decay_rank");
    reveal_strlit("a_rank");
    reveal_strlit("v_rank");
    reveal_strlit("g_rank");
    reveal_strlit("stride");
    assert(text::lowered("train"@) =~= "train"@);
    lemma_mode_setting(mode);
}

proof fn lemma_set_lr(cfg: ConfigModel, val: Seq<char>)
    requires
        reals::is_real(val),
        reals::shown_real(val, false) == val,
    ensures
        policy_forms::key_form("lr"@),
        setting_form("lr"@),
        method::with_setting(cfg, "lr"@, val) == Ok::<ConfigModel, MethodErrorModel>(ConfigModel { lr: val, ..cfg }),
{
    reveal_strlit("seed");
    reveal_strlit("lr");
    reveal_strlit("train");
    reveal_strlit("train_mode");
    reveal_strlit("hidden");
    reveal_strlit("layers");
    reveal_strlit("intermediate");
    reveal_strlit("decay_rank");
    reveal_strlit("a_rank");
    reveal_strlit("v_rank");
    reveal_strlit("g_rank");
    reveal_strlit("stride");
    assert(text::lowered("lr"@) =~= "lr"@);
}

proof fn lemma_set_stride(cfg: ConfigModel, n: nat)
    requires
        n <= usize::MAX,
    ensures
        policy_forms::key_form("stride"@),
        setting_form("stride"@),
        method::with_setting(cfg, "stride"@, text::decimal(n)) == Ok::<ConfigModel, MethodErrorModel>(ConfigModel { stride: n, ..cfg }),
{
    reveal_strlit("seed");
    reveal_strlit("lr");
    reveal_strlit("train");
    reveal_strlit("train_mode");
    reveal_strlit("hidden");
    reveal_strlit("layers");
    reveal_strlit("intermediate");
    reveal_strlit("decay_rank");
    reveal_strlit("a_rank");
    reveal_strlit("v_rank");
    reveal_strlit("g_rank");
    reveal_strlit("stride");
    assert(text::lowered("stride"@) =~= "stride"@);
    assert("stride"@[0] != "hidden"@[0]);
    assert("stride"@[0] != "layers"@[0]);
    assert("stride"@[0] != "a_rank"@[0]);
    assert("stride"@[0] != "v_rank"@[0]);
    assert("stride"@[0] != "g_rank"@[0]);
    text_forms::lemma_decimal_parsed(n, usize::MAX as nat);
}

/// Settings of a configuration, one by one.
pub open spec fn config_arguments(cfg: ConfigModel) -> Seq<Seq<char>> {
    seq![
        policy_forms::argument("hidden"@, text::decimal(cfg.hidden)),
        policy_forms::argument("layers"@, text::decimal(cfg.layers)),
        policy_forms::argument("intermediate"@, text::decimal(cfg.intermediate)),
        policy_forms::argument("decay_rank"@, text::decimal(cfg.decay_rank)),
        policy_forms::argument("a_rank"@, text::decimal(cfg.a_rank)),
        policy_forms::argument("v_rank"@, text::decimal(cfg.v_rank)),
        policy_forms::argument("g_rank"@, text::decimal(cfg.g_rank)),
        policy_forms::argument("seed"@, text::decimal(cfg.seed)),
        policy_forms::argument("train"@, method::train_mode_text(cfg.train_mode)),
        policy_forms::argument("lr"@, cfg.lr),
        policy_forms::argument("stride"@, text::decimal(cfg.stride)),
    ]
}

/// The settings of a configuration are read one by one.
proof fn lemma_settings_read(cfg: ConfigModel)
    requires
        config_ok(cfg),
    ensures
        method::with_settings(method::default_config(), config_arguments(cfg), 0) == Ok::<
            ConfigModel,
            MethodErrorModel,
        >(cfg),
        forall|i: int|
            0 <= i < 11 ==> text_forms::lacks(#[trigger] config_arguments(cfg)[i], ',') && text_forms::lacks(
                config_arguments(cfg)[i],
                ';',
            ),
        config_arguments(cfg)[0].contains('='),
        config_arguments(cfg)[0].len() > 0,
        config_arguments(cfg)[10].len() > 0,
        text_forms::tight(config_arguments(cfg)[10]),
{
    let args = config_arguments(cfg);
    let c0 = method::default_config();
    let c1 = ConfigModel { hidden: cfg.hidden, ..c0 };
    lemma_decimal_setting(cfg.hidden);
    lemma_set_hidden(c0, cfg.hidden);
    lemma_setting_step(c0, args, 0, "hidden"@, text::decimal(cfg.hidden), c1);
    let c2 = ConfigModel { layers: cfg.layers, ..c1 };
    lemma_decimal_setting(cfg.layers);
    lemma_set_layers(c1, cfg.layers);
    lemma_setting_step(c1, args, 1, "layers"@, text::decimal(cfg.layers), c2);
    let c3 = ConfigModel { intermediate: cfg.intermediate, ..c2 };
    lemma_decimal_setting(cfg.intermediate);
    lemma_set_intermediate(c2, cfg.intermediate);
    lemma_setting_step(c2, args, 2, "intermediate"@, text::decimal(cfg.intermediate), c3);
    let c4 = ConfigModel { decay_rank: cfg.decay_rank, ..c3 };
    lemma_decimal_setting(cfg.decay_rank);
    lemma_set_decay_rank(c3, cfg.decay_rank);
    lemma_setting_step(c3, args, 3, "decay_rank"@, text::decimal(cfg.decay_rank), c4);
    let c5 = ConfigModel { a_rank: cfg.a_rank, ..c4 };
    lemma_decimal_setting(cfg.a_rank);
    lemma_set_a_rank(c4, cfg.a_rank);
    lemma_setting_step(c4, args, 4, "a_rank"@, text::decimal(cfg.a_rank), c5);
    let c6 = ConfigModel { v_rank: cfg.v_rank, ..c5 };
    lemma_decimal_setting(cfg.v_rank);
    lemma_set_v_rank(c5, cfg.v_rank);
    lemma_setting_step(c5, args, 5, "v_rank"@, text::decimal(cfg.v_rank), c6);
    let c7 = ConfigModel { g_rank: cfg.g_rank, ..c6 };
    lemma_decimal_setting(cfg.g_rank);
    lemma_set_g_rank(c6, cfg.g_rank);
    lemma_setting_step(c6, args, 6, "g_rank"@, text::decimal(cfg.g_rank), c7);
    let c8 = ConfigModel { seed: cfg.seed, ..c7 };
    lemma_decimal_setting(cfg.seed);
    lemma_set_seed(c7, cfg.seed);
    lemma_setting_step(c7, args, 7, "seed"@, text::decimal(cfg.seed), c8);
    let c9 = ConfigModel { train_mode: cfg.train_mode, ..c8 };
    lemma_mode_setting(cfg.train_mode);
    lemma_set_train(c8, cfg.train_mode);
    lemma_setting_step(c8, args, 8, "train"@, method::train_mode_text(cfg.train_mode), c9);
    let c10 = ConfigModel { lr: cfg.lr, ..c9 };
    lemma_number_setting(cfg.lr);
    lemma_set_lr(c9, cfg.lr);
    lemma_setting_step(c9, args, 9, "lr"@, cfg.lr, c10);
    let c11 = ConfigModel { stride: cfg.stride, ..c10 };
    lemma_decimal_setting(cfg.stride);
    lemma_set_stride(c10, cfg.stride);
    lemma_setting_step(c10, args, 10, "stride"@, text::decimal(cfg.stride), c11);
    assert(c11 =~= cfg);
    assert(method::with_settings(c11, args, 11) == Ok::<ConfigModel, MethodErrorModel>(c11));
    assert forall|i: int| 0 <= i < 11 implies text_forms::lacks(#[trigger] args[i], ',') && text_forms::lacks(args[i], ';') by {
        if i == 0 {
        } else if i == 1 {
        } else if i == 2 {
        } else if i == 3 {
        } else if i == 4 {
        } else if i == 5 {
        } else if i == 6 {
        } else if i == 7 {
        } else if i == 8 {
        } else if i == 9 {
        } else {
            assert(i == 10);
        }
    }
}

/// The text of a configuration is the list of its settings.
proof fn lemma_config_text(cfg: ConfigModel)
    requires
        cfg.stride >= 1,
    ensures
        method::config_text(cfg) == "cfg:"@ + policy_forms::listed(config_arguments(cfg), 11),
        "cfg:"@.len() == 4,
        "cfg:"@[0] == 'c',
        text_forms::lacks("cfg:"@, ';'),
{
    reveal_strlit("cfg:");
    reveal_strlit("cfg:hidden=");
    reveal_strlit("hidden");
    reveal_strlit("layers");
    reveal_strlit(",layers=");
    reveal_strlit("intermediate");
    reveal_strlit(",intermediate=");
    reveal_strlit("decay_rank");
    reveal_strlit(",decay_rank=");
    reveal_strlit("a_rank");
    reveal_strlit(",a_rank=");
    reveal_strlit("v_rank");
    reveal_strlit(",v_rank=");
    reveal_strlit("g_rank");
    reveal_strlit(",g_rank=");
    reveal_strlit("seed");
    reveal_strlit(",seed=");
    reveal_strlit("train");
    reveal_strlit(",train=");
    reveal_strlit("lr");
    reveal_strlit(",lr=");
    reveal_strlit("stride");
    reveal_strlit(",stride=");
    let args = config_arguments(cfg);
    let front = "cfg:"@;
    let x1 = "cfg:hidden="@ + text::decimal(cfg.hidden);
    assert("cfg:hidden="@ =~= front + "hidden"@ + seq!['=']);
    assert(x1 =~= front + args[0]);
    let i1 = policy_forms::listed(args, 1);
    assert(i1 == args[0]);
    assert(",layers="@ =~= seq![','] + "layers"@ + seq!['=']);
    let x2 = x1 + ",layers="@ + text::decimal(cfg.layers);
    policy_forms::lemma_text_step(x1, front, i1, ",layers="@, "layers"@, text::decimal(cfg.layers));
    let i2 = policy_forms::listed(args, 2);
    assert(i2 == i1 + seq![','] + args[1]);
    assert(",intermediate="@ =~= seq![','] + "intermediate"@ + seq!['=']);
    let x3 = x2 + ",intermediate="@ + text::decimal(cfg.intermediate);
    policy_forms::lemma_text_step(x2, front, i2, ",intermediate="@, "intermediate"@, text::decimal(cfg.intermediate));
    let i3 = policy_forms::listed(args, 3);
    assert(i3 == i2 + seq![','] + args[2]);
    assert(",decay_rank="@ =~= seq![','] + "decay_rank"@ + seq!['=']);
    let x4 = x3 + ",decay_rank="@ + text::decimal(cfg.decay_rank);
    policy_forms::lemma_text_step(x3, front, i3, ",decay_rank="@, "decay_rank"@, text::decimal(cfg.decay_rank));
    let i4 = policy_forms::listed(args, 4);
    assert(i4 == i3 + seq![','] + args[3]);
    assert(",a_rank="@ =~= seq![','] + "a_rank"@ + seq!['=']);
    let x5 = x4 + ",a_rank="@ + text::decimal(cfg.a_rank);
    policy_forms::lemma_text_step(x4, front, i4, ",a_rank="@, "a_rank"@, text::decimal(cfg.a_rank));
    let i5 = policy_forms::listed(args, 5);
    assert(i5 == i4 + seq![','] + args[4]);
    assert(",v_rank="@ =~= seq![','] + "v_rank"@ + seq!['=']);
    let x6 = x5 + ",v_rank="@ + text::decimal(cfg.v_rank);
    policy_forms::lemma_text_step(x5, front, i5, ",v_rank="@, "v_rank"@, text::decimal(cfg.v_rank));
    let i6 = policy_forms::listed(args, 6);
    assert(i6 == i5 + seq![','] + args[5]);
    assert(",g_rank="@ =~= seq![','] + "g_rank"@ + seq!['=']);
    let x7 = x6 + ",g_rank="@ + text::decimal(cfg.g_rank);
    policy_forms::lemma_text_step(x6, front, i6, ",g_rank="@, "g_rank"@, text::decimal(cfg.g_rank));
    let i7 = policy_forms::listed(args, 7);
    assert(i7 == i6 + seq![','] + args[6]);
    assert(",seed="@ =~= seq![','] + "seed"@ + seq!['=']);
    let x8 = x7 + ",seed="@ + text::decimal(cfg.seed);
    policy_forms::lemma_text_step(x7, front, i7, ",seed="@, "seed"@, text::decimal(cfg.seed));
    let i8 = policy_forms::listed(args, 8);
    assert(i8 == i7 + seq![','] + args[7]);
    assert(",train="@ =~= seq![','] + "train"@ + seq!['=']);
    let x9 = x8 + ",train="@ + method::train_mode_text(cfg.train_mode);
    policy_forms::lemma_text_step(x8, front, i8, ",train="@, "train"@, method::train_mode_text(cfg.train_mode));
    let i9 = policy_forms::listed(args, 9);
    assert(i9 == i8 + seq![','] + args[8]);
    assert(",lr="@ =~= seq![','] + "lr"@ + seq!['=']);
    let x10 = x9 + ",lr="@ + cfg.lr;
    policy_forms::lemma_text_step(x9, front, i9, ",lr="@, "lr"@, cfg.lr);
    let i10 = policy_forms::listed(args, 10);
    assert(i10 == i9 + seq![','] + args[9]);
    assert(",stride="@ =~= seq![','] + "stride"@ + seq!['=']);
    let x11 = x10 + ",stride="@ + text::decimal(cfg.stride);
    policy_forms::lemma_text_step(x10, front, i10, ",stride="@, "stride"@, text::decimal(cfg.stride));
    let i11 = policy_forms::listed(args, 11);
    assert(i11 == i10 + seq![','] + args[10]);
    assert(method::config_text(cfg) == x11);
}

// ---------------------------------------------------------------------------------------
// Methods
// ---------------------------------------------------------------------------------------

/// A schedule as it stands behind a method.
pub open spec fn schedule_suffix(policy: Option<PolicyModel>) -> Seq<char> {
    match policy {
        Some(p) => ";policy:"@ + llm_policy::policy_text(p),
        None => Seq::empty(),
    }
}

/// A text that begins with another letter names no file.
proof fn lemma_no_file(m: Seq<char>)
    requires
        m.len() > 0,
        m[0] == 'c',
    ensures
        method_path::file_policy_cut(m) is None,
        text::after_prefix(m, "file:"@) is None,
{
    reveal_strlit("file:");
    reveal_strlit(";policy:");
    assert("file:"@[0] == 'f');
    assert(";policy:"@[0] == ';');
    if text::begins(m, "file:"@) {
        assert(m.subrange(0, 5)[0] == m[0]);
    }
    text::lemma_index_of_text_bounds(m, ";policy:"@, 0);
    let i = text::index_of_text(m, ";policy:"@, 0);
    if i >= 0 {
        assert(m.subrange(i, i + 8)[0] == m[i]);
        assert(i > 0);
        let base = m.subrange(0, i);
        assert(base[0] == 'c');
        assert(text::lead(base, 0) == 0);
        assert(text::trimmed_start(base) =~= base);
        if text::begins(base, "file:"@) {
            assert(base.subrange(0, 5)[0] == base[0]);
        }
    }
}

/// The schedule behind a method is found.
proof fn lemma_plain_split(base: Seq<char>, policy: Option<PolicyModel>)
    requires
        base.len() > 0,
        text_forms::tight(base),
        text_forms::lacks(base, ';'),
        policy matches Some(p) ==> text_forms::lacks(llm_policy::policy_text(p), ';') && text_forms::tight(llm_policy::policy_text(p)) && llm_policy::policy_text(
            p,
        ).len() > 0,
    ensures
        method_path::plain_method_split(base + schedule_suffix(policy)) == Ok::<
            (Seq<char>, Option<Seq<char>>),
            ErrorModel,
        >((base, match policy {
            Some(p) => Some(llm_policy::policy_text(p)),
            None => None,
        })),
{
    let m = base + schedule_suffix(policy);
    text_forms::lemma_trimmed_tight(base);
    match policy {
        None => {
            assert(m =~= base);
            lemma_one_piece(base, ';', 0);
            assert(base.subrange(0, base.len() as int) =~= base);
        },
        Some(p) => {
            let t = llm_policy::policy_text(p);
            reveal_strlit(";policy:");
            reveal_strlit("policy:");
            let piece = "policy:"@ + t;
            assert(";policy:"@ =~= seq![';'] + "policy:"@);
            assert(m =~= base + seq![';'] + piece);
            assert forall|i: int| 0 <= i < piece.len() implies #[trigger] piece[i] != ';' by {
                if i >= 7 {
                    assert(piece[i] == t[i - 7]);
                } else {
                    assert(piece[i] == "policy:"@[i]);
                }
            }
            lemma_one_piece(base, ';', 0);
            assert(base.subrange(0, base.len() as int) =~= base);
            lemma_one_more_piece(base, ';', piece, 0);
            let pieces = text::split_pieces(m, ';', 0);
            assert(pieces =~= seq![base, piece]);
            assert(piece[0] == 'p');
            assert(piece.last() == t.last());
            text_forms::lemma_trimmed_tight(piece);
            text_forms::lemma_trimmed_tight(t);
            text_forms::lemma_after_front("policy:"@, t);
            assert(method_path::policy_pieces(pieces, 2, Some(t)) == Ok::<Option<Seq<char>>, ErrorModel>(Some(t)));
            assert(method_path::policy_pieces(pieces, 1, None) == method_path::policy_pieces(pieces, 2, Some(t)));
        },
    }
}

/// Facts about the text of a configuration.
proof fn lemma_config_form(cfg: ConfigModel)
    requires
        config_ok(cfg),
    ensures
        method::config_text(cfg).len() > 0,
        method::config_text(cfg)[0] == 'c',
        text_forms::tight(method::config_text(cfg)),
        text_forms::lacks(method::config_text(cfg), ';'),
        text::after_prefix(method::config_text(cfg), "file:"@) is None,
        text::after_prefix(method::config_text(cfg), "cfg:"@) == Some(policy_forms::listed(config_arguments(cfg), 11)),
        policy_forms::listed(config_arguments(cfg), 11).contains('='),
        method::named_config(policy_forms::listed(config_arguments(cfg), 11)) == Ok::<ConfigModel, MethodErrorModel>(cfg),
{
    let args = config_arguments(cfg);
    let body = policy_forms::listed(args, 11);
    let t = method::config_text(cfg);
    lemma_settings_read(cfg);
    lemma_config_text(cfg);
    lemma_listed_pieces(args, 11);
    assert(args.take(11) =~= args);
    lemma_listed_lacks(args, 11, ';');
    assert(t[0] == 'c');
    lemma_no_file(t);
    text_forms::lemma_after_front("cfg:"@, body);
    assert(body == policy_forms::listed(args, 10) + seq![','] + args[10]);
    assert(body.last() == args[10].last());
    assert(t.last() == body.last());
    assert forall|i: int| 0 <= i < t.len() implies #[trigger] t[i] != ';' by {
        if i >= 4 {
            assert(t[i] == body[i - 4]);
        } else {
            assert(t[i] == "cfg:"@[i]);
        }
    }
    lemma_listed_begins(args, 11);
    let k = choose|k: int| 0 <= k < args[0].len() && args[0][k] == '=';
    assert(body[k] == args[0][k]);
}

proof fn lemma_listed_begins(args: Seq<Seq<char>>, n: int)
    requires
        1 <= n <= args.len(),
    ensures
        policy_forms::listed(args, n).len() >= args[0].len(),
        forall|i: int| 0 <= i < args[0].len() ==> #[trigger] policy_forms::listed(args, n)[i] == args[0][i],
    decreases n,
{
    if n > 1 {
        lemma_listed_begins(args, n - 1);
        let x = policy_forms::listed(args, n - 1);
        assert forall|i: int| 0 <= i < args[0].len() implies #[trigger] policy_forms::listed(args, n)[i]
            == args[0][i] by {
            assert(policy_forms::listed(args, n)[i] == x[i]);
        }
    }
}

/// A method with a configuration and a schedule that is written out is read back, unless the
/// schedule names a source with a semicolon.
#[verifier::rlimit(40)]
#[verifier::spinoff_prover]
pub proof fn law_online_method_round_trip(
    cfg: ConfigModel,
    policy: Option<PolicyModel>,
    exists: bool,
)
    requires
        config_ok(cfg),
        policy matches Some(p) ==> policy_laws::policy_ok(p, method::rwkv_scopes()) && text_forms::lacks(llm_policy::policy_text(p), ';'),
    ensures
        method::spec_of(method::config_text(cfg) + schedule_suffix(policy), exists) == Ok::<
            SpecModel,
            MethodErrorModel,
        >(SpecModel::Online { cfg, policy }),
{
    let base = method::config_text(cfg);
    let m = base + schedule_suffix(policy);
    lemma_config_form(cfg);
    if let Some(p) = policy {
        sidecar::lemma_own_policy_read(p);
        reveal_strlit(";policy:");
        assert(m.last() == llm_policy::policy_text(p).last());
    } else {
        assert(m =~= base);
    }
    assert(m[0] == base[0]);
    text_forms::lemma_trimmed_tight(m);
    lemma_no_file(m);
    lemma_plain_split(base, policy);
}

/// An escaped text holds no semicolon.
proof fn lemma_escaped_lacks(s: Seq<char>)
    ensures
        text_forms::lacks(method_path::escaped(s), ';'),
        method_path::escaped(s).len() >= s.len(),
        s.len() > 0 && text_forms::tight(s) ==> text_forms::tight(method_path::escaped(s)),
    decreases s.len(),
{
    reveal_strlit("%25");
    reveal_strlit("%3B");
    if s.len() > 0 {
        let fore = method_path::escaped(s.drop_last());
        let own = method_path::escaped_char(s.last());
        lemma_escaped_lacks(s.drop_last());
        let e = method_path::escaped(s);
        assert forall|i: int| 0 <= i < e.len() implies #[trigger] e[i] != ';' by {
            if i < fore.len() {
                assert(e[i] == fore[i]);
            } else {
                assert(e[i] == own[i - fore.len()]);
            }
        }
        if text_forms::tight(s) {
            lemma_escaped_front(s);
            assert(e.last() == own.last());
        }
    }
}

proof fn lemma_escaped_front(s: Seq<char>)
    requires
        s.len() > 0,
        !text::is_space(s[0]),
    ensures
        method_path::escaped(s).len() > 0,
        !text::is_space(method_path::escaped(s)[0]),
    decreases s.len(),
{
    reveal_strlit("%25");
    reveal_strlit("%3B");
    let fore = method_path::escaped(s.drop_last());
    let own = method_path::escaped_char(s.last());
    if s.len() == 1 {
        assert(fore.len() == 0);
        assert(method_path::escaped(s)[0] == own[0]);
    } else {
        assert(s.drop_last()[0] == s[0]);
        lemma_escaped_front(s.drop_last());
        assert(method_path::escaped(s)[0] == fore[0]);
    }
}

proof fn lemma_no_token(s: Seq<char>, from: int)
    requires
        text_forms::lacks(s, ';'),
        0 <= from <= s.len(),
    ensures
        method_path::ambiguous_token(s, from) is None,
    decreases s.len() - from,
{
    if from < s.len() {
        assert(s[from] != ';');
        lemma_no_token(s, from + 1);
    }
}

proof fn lemma_policy_mark(a: Seq<char>, b: Seq<char>, from: int)
    requires
        text_forms::lacks(a, ';'),
        0 <= from <= a.len(),
    ensures
        text::index_of_text(a + ";policy:"@ + b, ";policy:"@, from) == a.len(),
    decreases a.len() - from,
{
    reveal_strlit(";policy:");
    let s = a + ";policy:"@ + b;
    if from == a.len() {
        assert(s.subrange(from, from + 8) =~= ";policy:"@);
    } else {
        if text::occurs_at(s, ";policy:"@, from) {
            assert(s.subrange(from, from + 8)[0] == s[from]);
            assert(s[from] == a[from]);
        }
        lemma_policy_mark(a, b, from + 1);
    }
}

/// What a text in front of a path is made of.
proof fn lemma_file_base(e: Seq<char>)
    requires
        e.len() > 0,
        text_forms::tight(e),
        text_forms::lacks(e, ';'),
    ensures
        ("file:"@ + e).len() > 0,
        text_forms::tight("file:"@ + e),
        text_forms::lacks("file:"@ + e, ';'),
        ("file:"@ + e)[0] == 'f',
        text::trimmed_start("file:"@ + e) == "file:"@ + e,
        text::begins("file:"@ + e, "file:"@),
        text::after_prefix("file:"@ + e, "file:"@) == Some(e),
{
    reveal_strlit("file:");
    let base = "file:"@ + e;
    text_forms::lemma_after_front("file:"@, e);
    assert(base[0] == 'f');
    assert(base.last() == e.last());
    assert forall|i: int| 0 <= i < base.len() implies #[trigger] base[i] != ';' by {
        if i >= 5 {
            assert(base[i] == e[i - 5]);
        } else {
            assert(base[i] == "file:"@[i]);
        }
    }
    assert(text::lead(base, 0) == 0);
    assert(text::trimmed_start(base) =~= base);
}

/// A `file:` method without a schedule is its own base.
proof fn lemma_file_split_plain(e: Seq<char>)
    requires
        e.len() > 0,
        text_forms::tight(e),
        text_forms::lacks(e, ';'),
    ensures
        method_path::method_split("file:"@ + e) == Ok::<(Seq<char>, Option<Seq<char>>), ErrorModel>(
            ("file:"@ + e, None),
        ),
{
    reveal_strlit(";policy:");
    let m = "file:"@ + e;
    lemma_file_base(e);
    text_forms::lemma_trimmed_tight(m);
    text::lemma_index_of_text_bounds(m, ";policy:"@, 0);
    let i = text::index_of_text(m, ";policy:"@, 0);
    if i >= 0 {
        assert(m.subrange(i, i + 8)[0] == m[i]);
        assert(";policy:"@[0] == ';');
    }
    lemma_no_token(e, 0);
}

/// A `file:` method is split at its schedule.
proof fn lemma_file_split(e: Seq<char>, t: Seq<char>)
    requires
        e.len() > 0,
        text_forms::tight(e),
        text_forms::lacks(e, ';'),
        t.len() > 0,
        text_forms::tight(t),
    ensures
        method_path::method_split("file:"@ + e + (";policy:"@ + t)) == Ok::<
            (Seq<char>, Option<Seq<char>>),
            ErrorModel,
        >(("file:"@ + e, Some(t))),
{
    reveal_strlit(";policy:");
    let base = "file:"@ + e;
    let m = base + (";policy:"@ + t);
    lemma_file_base(e);
    text_forms::lemma_trimmed_tight(base);
    text_forms::lemma_trimmed_tight(t);
    assert(m =~= base + ";policy:"@ + t);
    assert(m[0] == base[0]);
    assert(m.last() == t.last());
    text_forms::lemma_trimmed_tight(m);
    lemma_policy_mark(base, t, 0);
    assert(m.subrange(0, base.len() as int) =~= base);
    assert(m.subrange(base.len() as int + 8, m.len() as int) =~= t);
    assert(text::cut_text(m, ";policy:"@) == Some((base, t)));
}

/// The base of a `file:` method names its path.
proof fn lemma_file_read(path: Seq<char>, policy: Option<PolicyModel>, exists: bool)
    requires
        path.len() > 0,
        text_forms::tight(method_path::escaped(path)),
        method_path::escaped(path).len() > 0,
        text_forms::lacks(method_path::escaped(path), ';'),
        !method::loads(policy),
    ensures
        method::base_part("file:"@ + method_path::escaped(path), policy, exists) == Ok::<
            SpecModel,
            MethodErrorModel,
        >(SpecModel::File { path, policy }),
{
    let e = method_path::escaped(path);
    lemma_file_base(e);
    text_forms::lemma_trimmed_tight(e);
    method_path::law_unescaped_escaped(path);
}

/// A method with the path of a file and a schedule that is written out is read back.
#[verifier::spinoff_prover]
pub proof fn law_file_method_round_trip(
    path: Seq<char>,
    policy: Option<PolicyModel>,
    exists: bool,
)
    requires
        path.len() > 0,
        text_forms::tight(path),
        policy matches Some(p) ==> policy_laws::policy_ok(p, method::rwkv_scopes()) && p.load_from is None,
    ensures
        method::spec_of("file:"@ + method_path::escaped(path) + schedule_suffix(policy), exists)
            == Ok::<SpecModel, MethodErrorModel>(SpecModel::File { path, policy }),
{
    let e = method_path::escaped(path);
    lemma_escaped_lacks(path);
    lemma_file_read(path, policy, exists);
    match policy {
        None => {
            assert("file:"@ + e + schedule_suffix(policy) =~= "file:"@ + e);
            lemma_file_split_plain(e);
        },
        Some(p) => {
            sidecar::lemma_own_policy_read(p);
            lemma_file_split(e, llm_policy::policy_text(p));
        },
    }
}

// ---------------------------------------------------------------------------------------
// What is read can be written
// ---------------------------------------------------------------------------------------

/// A configuration as it is read, whatever its stride.
spec fn config_read(cfg: ConfigModel) -> bool {
    config_ok(ConfigModel { stride: 1, ..cfg }) && cfg.stride <= usize::MAX
}

proof fn lemma_default_config()
    ensures
        config_read(method::default_config()),
{
    reveal_strlit("0.001");
    reveal_strlit("0.");
    reveal_strlit("");
    let one = seq!['1'];
    assert("0.001"@ =~= reals::plain_decimal(one, -2));
    real_forms::lemma_plain(one, -2);
    assert(""@ + "0.001"@ =~= "0.001"@);
    assert(reals::shown_real("0.001"@, false) == "0.001"@);
}

#[verifier::spinoff_prover]
proof fn lemma_setting_kept(cfg: ConfigModel, key: Seq<char>, val: Seq<char>)
    requires
        config_read(cfg),
    ensures
        method::with_setting(cfg, key, val) matches Ok(next) ==> config_read(next),
{
    if reals::is_real(val) {
        real_forms::law_shown_again(val, false);
    }
}

proof fn lemma_settings_kept(cfg: ConfigModel, pieces: Seq<Seq<char>>, i: int)
    requires
        config_read(cfg),
        0 <= i <= pieces.len(),
    ensures
        method::with_settings(cfg, pieces, i) matches Ok(last) ==> config_read(last),
    decreases pieces.len() - i,
{
    if i < pieces.len() {
        let pair = text::trimmed(pieces[i]);
        if pair.len() == 0 {
            lemma_settings_kept(cfg, pieces, i + 1);
        } else {
            match text::cut_char(pair, '=') {
                None => {},
                Some((k, v)) => {
                    let key = text::lowered(text::trimmed(k));
                    let val = text::trimmed(v);
                    lemma_setting_kept(cfg, key, val);
                    match method::with_setting(cfg, key, val) {
                        Ok(next) => {
                            lemma_settings_kept(next, pieces, i + 1);
                        },
                        Err(_) => {},
                    }
                },
            }
        }
    }
}

#[verifier::spinoff_prover]
proof fn lemma_positional_read(csv: Seq<char>)
    ensures
        method::positional(csv) matches Ok(cfg) ==> config_read(cfg),
{
    lemma_default_config();
    let pieces = text::split_pieces(csv, ',', 0);
    let vals = method::filled(pieces, pieces.len() as int);
    if vals.len() == 6 || vals.len() == 7 {
        if reals::is_real(vals[5]) {
            real_forms::law_shown_again(vals[5], false);
        }
    }
}

/// A method with a configuration that was read is read again, the same, from what it is written
/// out as, unless its stride is zero or its schedule names a source with a semicolon.
pub proof fn law_online_method_serializes_back(method: Seq<char>, exists: bool, later: bool)
    ensures
        method::spec_of(method, exists) matches Ok(SpecModel::Online { cfg, policy }) ==> cfg.stride >= 1
            && (policy matches Some(p) ==> text_forms::lacks(llm_policy::policy_text(p), ';')) ==> method::spec_of(
            method::config_text(cfg) + schedule_suffix(policy),
            later,
        ) == Ok::<SpecModel, MethodErrorModel>(SpecModel::Online { cfg, policy }),
{
    match method::spec_of(method, exists) {
        Ok(SpecModel::Online { cfg, policy }) => {
            match method_path::method_split(method) {
                Err(_) => {},
                Ok((base, segment)) => {
                    match segment {
                        None => {},
                        Some(s) => {
                            policy_laws::law_read_policy_fits(s, method::rwkv_scopes());
                        },
                    }
                    lemma_default_config();
                    lemma_positional_read(base);
                    match text::after_prefix(base, "cfg:"@) {
                        None => {},
                        Some(cfg_s) => {
                            lemma_positional_read(cfg_s);
                            lemma_settings_kept(method::default_config(), text::split_pieces(cfg_s, ',', 0), 0);
                        },
                    }
                    assert(config_read(cfg));
                    if cfg.stride >= 1 && (policy matches Some(p) ==> text_forms::lacks(llm_policy::policy_text(p), ';')) {
                        law_online_method_round_trip(cfg, policy, later);
                    }
                },
            }
        },
        _ => {},
    }
}

} // verus!
