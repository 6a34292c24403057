//! The style registry and the value renderers: a fixed, named, ordered
//! list of strategies, each a pure function of a value, its delta, the
//! elapsed interval and a focus flag, producing colour-styled text.

use vstd::prelude::*;

use crate::styles::NUM_STYLES;
use crate::text::{digit_char, i64_to_string, spec_i64_string, spec_nat_string, u128_to_string};

verus! {

/// The fixed rendering strategies, in registry order.
#[derive(PartialEq, Eq, Structural, Clone, Copy, Debug)]
pub enum StyleKind {
    /// The value alone.
    Plain,
    /// The value, then the delta per interval when it moved.
    ValueDelta,
    /// The value, then the rate per second when it moved.
    ValueRate,
    /// The delta per interval alone.
    DeltaOnly,
    /// The rate per second alone.
    RateOnly,
    /// The value, then the unit-scaled rate per second when it moved.
    Engineering,
    /// The value, then the unit-scaled bit rate per second when it moved.
    Networking,
}

/// What ansi_term's styling produces for the given colour, reverse flag
/// and text.
pub uninterp spec fn painted(colour: u8, reverse: bool, text: Seq<char>) -> Seq<char>;

/// Relies on ansi_term's Style::paint and its Display: the styled text is
/// the style's ANSI prefix, the text, and the style's suffix, a pure
/// function of the style (a bold fixed colour, reversed when focused) and
/// the text.
#[verifier::external_body]
fn paint_text(colour: u8, reverse: bool, text: &str) -> (r: String)
    ensures
        r@ == painted(colour, reverse, text@),
{
    let style = ansi_term::Style {
        foreground: Some(ansi_term::Colour::Fixed(colour)),
        is_bold: true,
        is_reverse: reverse,
        ..ansi_term::Style::default()
    };
    style.paint(text).to_string()
}

/// The two-decimal rounding of the ratio `n / t`, in hundredths: half-up
/// rounding on the magnitude, with the sign reattached.
pub open spec fn spec_centi_ratio(n: int, t: int) -> int {
    if n >= 0 {
        (n * 100 + t / 2) / t
    } else {
        -(((-n) * 100 + t / 2) / t)
    }
}

/// A non-negative amount of hundredths as a two-decimal string.
pub open spec fn spec_centi_string_nn(c: int) -> Seq<char> {
    spec_nat_string((c / 100) as nat) + seq!['.', digit_char(c / 10 % 10), digit_char(c % 10)]
}

/// An amount of hundredths as a two-decimal string, signed.
pub open spec fn spec_centi_string(c: int) -> Seq<char> {
    if c < 0 {
        seq!['-'] + spec_centi_string_nn(-c)
    } else {
        spec_centi_string_nn(c)
    }
}

/// The suffix of one scaling level: nothing, K, M or G, with the bit-rate
/// spelling when `bit` is set.
pub open spec fn spec_unit_suffix(level: int, bit: bool) -> Seq<char> {
    if bit {
        if level == 3 {
            "Gbps"@
        } else if level == 2 {
            "Mbps"@
        } else if level == 1 {
            "Kbps"@
        } else {
            "_bps"@
        }
    } else {
        if level == 3 {
            "G"@
        } else if level == 2 {
            "M"@
        } else if level == 1 {
            "K"@
        } else {
            Seq::empty()
        }
    }
}

/// The unit-scaled two-decimal rendering of the ratio `n / t`: scaled by
/// the first power of a thousand that the ratio strictly exceeds (a value
/// exactly at a threshold is not promoted), with the level's suffix.
pub open spec fn spec_format_ratio(n: int, t: int, bit: bool) -> Seq<char> {
    if n > 1_000_000_000 * t {
        spec_centi_string(spec_centi_ratio(n, 1_000_000_000 * t)) + spec_unit_suffix(3, bit)
    } else if n > 1_000_000 * t {
        spec_centi_string(spec_centi_ratio(n, 1_000_000 * t)) + spec_unit_suffix(2, bit)
    } else if n > 1_000 * t {
        spec_centi_string(spec_centi_ratio(n, 1_000 * t)) + spec_unit_suffix(1, bit)
    } else {
        spec_centi_string(spec_centi_ratio(n, t)) + spec_unit_suffix(0, bit)
    }
}

/// The widest numerator magnitude the formatters accept: covers any 64-bit
/// delta scaled to bits per millisecond.
pub const FORMAT_NUMERATOR_BOUND: i128 = 10_000_000_000_000_000_000_000_000;

/// Rounds the magnitude ratio `n / t` to hundredths, half up.
fn centi_ratio(n: i128, t: u128) -> (c: i128)
    requires
        0 < t <= 0x100_0000_0000_0000_0000_0000_0000,
        -FORMAT_NUMERATOR_BOUND <= n <= FORMAT_NUMERATOR_BOUND,
    ensures
        c == spec_centi_ratio(n as int, t as int),
        -100 * FORMAT_NUMERATOR_BOUND <= c <= 100 * FORMAT_NUMERATOR_BOUND,
{
    let m: u128 = if n >= 0 {
        n as u128
    } else {
        (-n) as u128
    };
    let a: u128 = m * 100 + t / 2;
    let u = a / t;
    proof {
        let mi = m as int;
        let ti = t as int;
        assert(ti / 2 < ti);
        vstd::arithmetic::mul::lemma_mul_inequality(1, ti, mi * 100);
        assert(mi * 100 * 1 == mi * 100) by (nonlinear_arith);
        assert((mi * 100 + 1) * ti == mi * 100 * ti + ti) by (nonlinear_arith);
        assert(a < ti * (mi * 100 + 1)) by {
            assert(ti * (mi * 100 + 1) == (mi * 100 + 1) * ti) by (nonlinear_arith);
        }
        vstd::arithmetic::div_mod::lemma_multiply_divide_lt(a as int, ti, mi * 100 + 1);
        assert(u <= mi * 100);
        vstd::arithmetic::div_mod::lemma_div_pos_is_pos(a as int, ti);
    }
    if n >= 0 {
        u as i128
    } else {
        -(u as i128)
    }
}

/// A signed amount of hundredths as a two-decimal string.
fn centi_string(c: i128) -> (s: String)
    requires
        -100 * FORMAT_NUMERATOR_BOUND <= c <= 100 * FORMAT_NUMERATOR_BOUND,
    ensures
        s@ == spec_centi_string(c as int),
{
    let m: u128 = if c >= 0 {
        c as u128
    } else {
        (-c) as u128
    };
    let mut s = String::new();
    if c < 0 {
        crate::text::push_char(&mut s, '-');
    }
    let whole = u128_to_string(m / 100);
    s.append(whole.as_str());
    crate::text::push_char(&mut s, '.');
    crate::text::push_char(&mut s, (48 + (m / 10 % 10) as u8) as char);
    crate::text::push_char(&mut s, (48 + (m % 10) as u8) as char);
    proof {
        assert((48 + (m / 10 % 10)) as char == digit_char(m as int / 10 % 10));
        assert((48 + (m % 10)) as char == digit_char(m as int % 10));
        if c < 0 {
            assert(s@ =~= seq!['-'] + spec_centi_string_nn(-(c as int)));
        } else {
            assert(s@ =~= spec_centi_string_nn(c as int));
        }
    }
    s
}

/// The unit-scaled two-decimal rendering of the ratio `n / t`, per the
/// strict thresholds at each power of a thousand.
fn format_ratio(n: i128, t: u64, bit: bool) -> (s: String)
    requires
        t > 0,
        -FORMAT_NUMERATOR_BOUND <= n <= FORMAT_NUMERATOR_BOUND,
    ensures
        s@ == spec_format_ratio(n as int, t as int, bit),
{
    let tw = t as u128;
    let (c, level): (i128, usize) = if n > 1_000_000_000 * (t as i128) {
        (centi_ratio(n, 1_000_000_000 * tw), 3)
    } else if n > 1_000_000 * (t as i128) {
        (centi_ratio(n, 1_000_000 * tw), 2)
    } else if n > 1_000 * (t as i128) {
        (centi_ratio(n, 1_000 * tw), 1)
    } else {
        (centi_ratio(n, tw), 0)
    };
    let mut s = centi_string(c);
    if bit {
        if level == 3 {
            s.append("Gbps");
        } else if level == 2 {
            s.append("Mbps");
        } else if level == 1 {
            s.append("Kbps");
        } else {
            s.append("_bps");
        }
    } else {
        if level == 3 {
            s.append("G");
        } else if level == 2 {
            s.append("M");
        } else if level == 1 {
            s.append("K");
        }
    }
    proof {
        assert(s@ =~= spec_format_ratio(n as int, t as int, bit));
    }
    s
}

/// Unit-scaled rendering of a whole value, with thresholds at each power
/// of a thousand, strictly: a value exactly at a threshold keeps the lower
/// unit. Two decimal digits always; bit-rate suffixes when `bit` is set.
pub fn format_number(v: i64, bit: bool) -> (s: String)
    ensures
        s@ == spec_format_ratio(v as int, 1, bit),
{
    format_ratio(v as i128, 1, bit)
}

/// The fixed colour of each strategy: blue for the plain style, red for
/// the delta and rate styles, purple for engineering, green for networking.
pub open spec fn spec_colour(k: StyleKind) -> u8 {
    match k {
        StyleKind::Plain => 4,
        StyleKind::ValueDelta => 1,
        StyleKind::ValueRate => 1,
        StyleKind::DeltaOnly => 1,
        StyleKind::RateOnly => 1,
        StyleKind::Engineering => 5,
        StyleKind::Networking => 2,
    }
}

/// What one strategy renders for a value `v` with delta `d` over an
/// interval of `t` milliseconds: the styled value and, per strategy, the
/// delta or the per-second rate, the latter in two decimals (unit-scaled
/// for the engineering and networking strategies, the latter in bits).
pub open spec fn spec_render_number(
    k: StyleKind,
    v: int,
    d: int,
    t: int,
    focus: bool,
) -> Seq<char> {
    let colour = spec_colour(k);
    match k {
        StyleKind::Plain => painted(colour, focus, spec_i64_string(v)),
        StyleKind::ValueDelta => painted(colour, focus, spec_i64_string(v)) + if d != 0 {
            "\u{27f6}"@ + painted(colour, focus, spec_i64_string(d)) + "/i"@
        } else {
            Seq::empty()
        },
        StyleKind::ValueRate => painted(colour, focus, spec_i64_string(v)) + if d != 0 {
            "\u{27f6}"@ + painted(colour, focus, spec_centi_string(spec_centi_ratio(d * 1000, t)))
                + "/s"@
        } else {
            Seq::empty()
        },
        StyleKind::DeltaOnly => painted(colour, focus, spec_i64_string(d)) + "/i"@,
        StyleKind::RateOnly => painted(
            colour,
            focus,
            spec_centi_string(spec_centi_ratio(d * 1000, t)),
        ) + "/s"@,
        StyleKind::Engineering => painted(colour, focus, spec_i64_string(v)) + if d != 0 {
            "\u{27f6}"@ + painted(colour, focus, spec_format_ratio(d * 1000, t, false)) + "/s"@
        } else {
            Seq::empty()
        },
        StyleKind::Networking => painted(colour, focus, spec_i64_string(v)) + if d != 0 {
            "\u{27f6}"@ + painted(colour, focus, spec_format_ratio(d * 8000, t, true)) + "/s"@
        } else {
            Seq::empty()
        },
    }
}

/// The per-second rate of `delta` over `interval_ms`, in two decimals.
fn rate_string(delta: i64, interval_ms: u64) -> (s: String)
    requires
        interval_ms > 0,
    ensures
        s@ == spec_centi_string(spec_centi_ratio(delta as int * 1000, interval_ms as int)),
{
    let c = centi_ratio((delta as i128) * 1000, interval_ms as u128);
    centi_string(c)
}

/// Renders one number with the given strategy: the styled value and, per
/// strategy, its delta per interval or its per-second rate.
pub fn render_number(
    kind: StyleKind,
    value: i64,
    delta: i64,
    interval_ms: u64,
    focus: bool,
) -> (s: String)
    requires
        interval_ms > 0,
    ensures
        s@ == spec_render_number(kind, value as int, delta as int, interval_ms as int, focus),
{
    match kind {
        StyleKind::Plain => {
            let num = i64_to_string(value);
            paint_text(4, focus, num.as_str())
        },
        StyleKind::ValueDelta => {
            let num = i64_to_string(value);
            let mut s = paint_text(1, focus, num.as_str());
            if delta != 0 {
                s.append("\u{27f6}");
                let dnum = i64_to_string(delta);
                let painted_d = paint_text(1, focus, dnum.as_str());
                s.append(painted_d.as_str());
                s.append("/i");
            }
            proof {
                assert(s@ =~= spec_render_number(
                    kind,
                    value as int,
                    delta as int,
                    interval_ms as int,
                    focus,
                ));
            }
            s
        },
        StyleKind::ValueRate => {
            let num = i64_to_string(value);
            let mut s = paint_text(1, focus, num.as_str());
            if delta != 0 {
                s.append("\u{27f6}");
                let rate = rate_string(delta, interval_ms);
                let painted_r = paint_text(1, focus, rate.as_str());
                s.append(painted_r.as_str());
                s.append("/s");
            }
            proof {
                assert(s@ =~= spec_render_number(
                    kind,
                    value as int,
                    delta as int,
                    interval_ms as int,
                    focus,
                ));
            }
            s
        },
        StyleKind::DeltaOnly => {
            let dnum = i64_to_string(delta);
            let mut s = paint_text(1, focus, dnum.as_str());
            s.append("/i");
            proof {
                assert(s@ =~= spec_render_number(
                    kind,
                    value as int,
                    delta as int,
                    interval_ms as int,
                    focus,
                ));
            }
            s
        },
        StyleKind::RateOnly => {
            let rate = rate_string(delta, interval_ms);
            let mut s = paint_text(1, focus, rate.as_str());
            s.append("/s");
            proof {
                assert(s@ =~= spec_render_number(
                    kind,
                    value as int,
                    delta as int,
                    interval_ms as int,
                    focus,
                ));
            }
            s
        },
        StyleKind::Engineering => {
            let num = i64_to_string(value);
            let mut s = paint_text(5, focus, num.as_str());
            if delta != 0 {
                s.append("\u{27f6}");
                let rate = format_ratio((delta as i128) * 1000, interval_ms, false);
                let painted_r = paint_text(5, focus, rate.as_str());
                s.append(painted_r.as_str());
                s.append("/s");
            }
            proof {
                assert(s@ =~= spec_render_number(
                    kind,
                    value as int,
                    delta as int,
                    interval_ms as int,
                    focus,
                ));
            }
            s
        },
        StyleKind::Networking => {
            let num = i64_to_string(value);
            let mut s = paint_text(2, focus, num.as_str());
            if delta != 0 {
                s.append("\u{27f6}");
                let rate = format_ratio((delta as i128) * 8000, interval_ms, true);
                let painted_r = paint_text(2, focus, rate.as_str());
                s.append(painted_r.as_str());
                s.append("/s");
            }
            proof {
                assert(s@ =~= spec_render_number(
                    kind,
                    value as int,
                    delta as int,
                    interval_ms as int,
                    focus,
                ));
            }
            s
        },
    }
}

/// The registry name of the strategy at position `j`.
pub open spec fn spec_style_name(j: int) -> Seq<char> {
    if j == 0 {
        "default"@
    } else if j == 1 {
        "number+(events per interval)"@
    } else if j == 2 {
        "number+(events per second)"@
    } else if j == 3 {
        "events per interval"@
    } else if j == 4 {
        "events per second"@
    } else if j == 5 {
        "engineering"@
    } else {
        "networking"@
    }
}

/// The strategy at position `j` of the registry.
pub open spec fn spec_style_kind(j: int) -> StyleKind {
    if j == 0 {
        StyleKind::Plain
    } else if j == 1 {
        StyleKind::ValueDelta
    } else if j == 2 {
        StyleKind::ValueRate
    } else if j == 3 {
        StyleKind::DeltaOnly
    } else if j == 4 {
        StyleKind::RateOnly
    } else if j == 5 {
        StyleKind::Engineering
    } else {
        StyleKind::Networking
    }
}

/// One named rendering strategy of the registry.
pub struct WriterBox {
    /// The strategy.
    pub kind: StyleKind,
    /// Its registry name.
    pub style: String,
}

impl WriterBox {
    /// A named strategy.
    pub fn new(style: &str, kind: StyleKind) -> (w: WriterBox)
        ensures
            w.kind == kind,
            w.style@ == style@,
    {
        WriterBox { kind, style: style.to_owned() }
    }

    /// The registry position of the strategy named `s`, if any.
    pub fn index(s: &str) -> (r: Option<usize>)
        ensures
            match r {
                Some(i) => i < NUM_STYLES && spec_style_name(i as int) == s@,
                None => forall|j: int| 0 <= j < NUM_STYLES ==> spec_style_name(j) != s@,
            },
    {
        let key: String = s.to_owned();
        let ws = writers();
        let n = ws.len();
        let mut k: usize = 0;
        while k < n
            invariant
                k <= n,
                n == NUM_STYLES,
                ws@.len() == NUM_STYLES,
                key@ == s@,
                forall|j: int|
                    0 <= j < NUM_STYLES ==> (#[trigger] ws@[j]).style@ == spec_style_name(j),
                forall|j: int| 0 <= j < k ==> spec_style_name(j) != s@,
            decreases n - k,
        {
            if ws[k].style.eq(&key) {
                return Some(k);
            }
            k = k + 1;
        }
        None
    }
}

/// The style registry: the seven strategies under their names, in order.
pub fn writers() -> (ws: Vec<WriterBox>)
    ensures
        ws@.len() == NUM_STYLES,
        forall|j: int|
            0 <= j < NUM_STYLES ==> (#[trigger] ws@[j]).kind == spec_style_kind(j) && ws@[j].style@
                == spec_style_name(j),
{
    let mut ws: Vec<WriterBox> = Vec::new();
    ws.push(WriterBox::new("default", StyleKind::Plain));
    ws.push(WriterBox::new("number+(events per interval)", StyleKind::ValueDelta));
    ws.push(WriterBox::new("number+(events per second)", StyleKind::ValueRate));
    ws.push(WriterBox::new("events per interval", StyleKind::DeltaOnly));
    ws.push(WriterBox::new("events per second", StyleKind::RateOnly));
    ws.push(WriterBox::new("engineering", StyleKind::Engineering));
    ws.push(WriterBox::new("networking", StyleKind::Networking));
    ws
}

/// The strategy of a style index: positions wrap around the registry.
pub fn style_kind(index: usize) -> (k: StyleKind)
    ensures
        k == spec_style_kind((index % NUM_STYLES) as int),
{
    let j = index % NUM_STYLES;
    if j == 0 {
        StyleKind::Plain
    } else if j == 1 {
        StyleKind::ValueDelta
    } else if j == 2 {
        StyleKind::ValueRate
    } else if j == 3 {
        StyleKind::DeltaOnly
    } else if j == 4 {
        StyleKind::RateOnly
    } else if j == 5 {
        StyleKind::Engineering
    } else {
        StyleKind::Networking
    }
}

/// The banner text of a pass, up to the terminal controls: the interval,
/// the banner style's name, and the watched commands joined by pipes.
pub open spec fn spec_banner_head(
    interval_ms: u64,
    style_name: Seq<char>,
    cmds: Seq<Seq<char>>,
) -> Seq<char> {
    "Every "@ + spec_nat_string(interval_ms as nat) + " ms, style '"@ + style_name + "': "@
        + crate::exec::spec_join(cmds, " | "@)
}

/// The banner text of a pass: how often it runs, which style the banner
/// shows, and what is watched.
pub fn banner_head(interval_ms: u64, style_name: &str, commands: &Vec<String>) -> (r: String)
    ensures
        r@ == spec_banner_head(interval_ms, style_name@, commands@.map_values(|c: String| c@)),
{
    let mut s = String::new();
    s.append("Every ");
    let digits = crate::text::u64_to_string(interval_ms);
    s.append(digits.as_str());
    s.append(" ms, style '");
    s.append(style_name);
    s.append("': ");
    let joined = crate::exec::join_cmds(commands, " | ");
    s.append(joined.as_str());
    proof {
        assert(s@ =~= spec_banner_head(
            interval_ms,
            style_name@,
            commands@.map_values(|c: String| c@),
        ));
    }
    s
}

} // verus!
