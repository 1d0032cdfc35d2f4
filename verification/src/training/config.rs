//! The options of a run, and how a row is labelled by them.

use vstd::prelude::*;

use crate::binary64::{law_negation, Binary64};

verus! {

// ── Options ─────────────────────────────────────────────────────────────────

/// What is wrong with the options of a run.
#[derive(Clone, Copy, Debug, PartialEq, Eq, Structural)]
pub enum OptionsError {
    /// Neither a file nor a store to read is given.
    NoInput,
    /// The multiple of the volatility is not positive.
    MultipleNotPositive,
}

/// Tests the options of a run.
pub fn check_options(has_file: bool, has_store: bool, multiple: Binary64) -> (r: Result<
    (),
    OptionsError,
>)
    ensures
        r == (if !has_file && !has_store {
            Err::<(), OptionsError>(OptionsError::NoInput)
        } else if multiple.at_most_zero() {
            Err(OptionsError::MultipleNotPositive)
        } else {
            Ok(())
        }),
{
    if !has_file && !has_store {
        Err(OptionsError::NoInput)
    } else if multiple.is_at_most_zero() {
        Err(OptionsError::MultipleNotPositive)
    } else {
        Ok(())
    }
}

/// The widths of a run.
#[derive(Clone, Copy, Debug, PartialEq, Eq, Structural)]
pub struct Settings {
    pub bucket_width_micros: i64,
    pub vol_window_micros: i64,
    /// Buckets in the label window. Only buckets that make a tick count, so that a
    /// gap in the trades stretches the window in time.
    pub label_buckets: usize,
}

/// A quotient, rounded towards zero.
pub open spec fn quotient(a: int, b: int) -> int {
    if a >= 0 {
        a / b
    } else {
        -((-a) / b)
    }
}

/// How many buckets of a width fill a label window, and at least one. The labels
/// count so many ticks, which take longer than the window where some buckets make
/// none.
pub open spec fn buckets_in_window(window: int, width: int) -> int {
    if quotient(window, width) < 1 {
        1
    } else {
        quotient(window, width)
    }
}

/// A quotient is never larger than what was divided.
proof fn lemma_quotient_bounds(a: int, b: int)
    by (nonlinear_arith)
    requires
        a >= 0,
        b != 0,
    ensures
        -a <= a / b <= a,
{
}

/// Whether a run can have such widths: buckets have a width, and every number of
/// the run fits its type.
pub open spec fn widths_fit(bucket_ms: int, label_window_secs: int, vol_window_secs: int) -> bool {
    &&& bucket_ms != 0
    &&& i64::MIN <= bucket_ms * 1_000 <= i64::MAX
    &&& i64::MIN <= label_window_secs * 1_000_000 <= i64::MAX
    &&& i64::MIN <= vol_window_secs * 1_000_000 <= i64::MAX
    &&& buckets_in_window(label_window_secs * 1_000_000, bucket_ms * 1_000) <= usize::MAX
}

/// Works out the widths of a run from its options, where there can be such a run.
pub fn work_out_checked(bucket_ms: i64, label_window_secs: i64, vol_window_secs: i64) -> (s: Option<
    Settings,
>)
    ensures
        s is Some <==> widths_fit(
            bucket_ms as int,
            label_window_secs as int,
            vol_window_secs as int,
        ),
        s matches Some(s) ==> {
            &&& s.bucket_width_micros == bucket_ms * 1_000
            &&& s.vol_window_micros == vol_window_secs * 1_000_000
            &&& s.label_buckets == buckets_in_window(
                label_window_secs * 1_000_000,
                bucket_ms * 1_000,
            )
        },
{
    let width: i128 = bucket_ms as i128 * 1_000;
    let window: i128 = label_window_secs as i128 * 1_000_000;
    let trailing: i128 = vol_window_secs as i128 * 1_000_000;
    let (least, most): (i128, i128) = (i64::MIN as i128, i64::MAX as i128);
    if width == 0 || width < least || width > most || window < least || window > most || trailing
        < least || trailing > most {
        return None;
    }
    proof {
        lemma_quotient_bounds(if window >= 0 { window as int } else { -window }, width as int);
    }
    let buckets: i128 = window / width;
    if buckets > usize::MAX as i128 {
        return None;
    }
    Some(work_out(bucket_ms, label_window_secs, vol_window_secs))
}

/// Works out the widths of a run from its options.
pub fn work_out(bucket_ms: i64, label_window_secs: i64, vol_window_secs: i64) -> (s: Settings)
    requires
        widths_fit(bucket_ms as int, label_window_secs as int, vol_window_secs as int),
    ensures
        s.bucket_width_micros == bucket_ms * 1_000,
        s.vol_window_micros == vol_window_secs * 1_000_000,
        s.label_buckets == buckets_in_window(label_window_secs * 1_000_000, bucket_ms * 1_000),
        s.label_buckets >= 1,
{
    let bucket_width_micros: i64 = bucket_ms * 1_000;
    let label_window_micros: i64 = label_window_secs * 1_000_000;
    proof {
        let a = label_window_micros as int;
        lemma_quotient_bounds(if a >= 0 { a } else { -a }, bucket_width_micros as int);
    }
    let buckets: i64 = label_window_micros / bucket_width_micros;
    Settings {
        bucket_width_micros,
        vol_window_micros: vol_window_secs * 1_000_000,
        label_buckets: if buckets < 1 {
            1
        } else {
            buckets as usize
        },
    }
}

// ── Labels ──────────────────────────────────────────────────────────────────

/// The label of a row by its move in units of the volatility: 2 where it has
/// risen by more than the multiple, 0 where it has fallen by more, else 1.
pub open spec fn label_of(z: Binary64, multiple: Binary64) -> u8 {
    if multiple.below(z) {
        2
    } else if z.below(multiple.negated()) {
        0
    } else {
        1
    }
}

/// Labels a row by its move in units of the volatility.
pub fn choose_label(z: Binary64, multiple: Binary64) -> (label: u8)
    ensures
        label == label_of(z, multiple),
        label <= 2,
{
    if multiple.less_than(z) {
        2
    } else if z.less_than(multiple.negate()) {
        0
    } else {
        1
    }
}

/// Rising and falling are treated alike: the opposite move gets the opposite
/// label.
pub proof fn law_opposite_moves_get_opposite_labels(z: Binary64, multiple: Binary64)
    requires
        !multiple.at_most_zero(),
    ensures
        label_of(z.negated(), multiple) == 2 - label_of(z, multiple),
{
    law_negation(z);
    law_negation(multiple);
}

/// The label is told by the move and the multiple alone: where both are numbers and
/// the multiple is positive, the label is 2 exactly where the value of the move is
/// greater than that of the multiple, 0 exactly where it is less than minus that,
/// and 1 otherwise. So a move of less than the multiple in size is labelled 1,
/// whatever the multiple.
pub proof fn law_the_multiple_is_the_threshold(z: Binary64, multiple: Binary64)
    requires
        !z.is_nan(),
        !multiple.is_nan(),
        multiple.scaled() > 0,
    ensures
        label_of(z, multiple) == 2 <==> z.scaled() > multiple.scaled(),
        label_of(z, multiple) == 0 <==> z.scaled() < -multiple.scaled(),
        label_of(z, multiple) == 1 <==> -multiple.scaled() <= z.scaled() <= multiple.scaled(),
        label_of(z, multiple) <= 2,
{
    law_negation(multiple);
}

/// What is no number is never labelled as a rise or a fall.
pub proof fn law_no_number_is_no_move(z: Binary64, multiple: Binary64)
    requires
        z.is_nan() || multiple.is_nan(),
    ensures
        label_of(z, multiple) == 1,
{
    law_negation(multiple);
}

/// A larger multiple never turns a row without a label of its own into a rise or a
/// fall, and a larger move never gets a lower label.
pub proof fn law_labels_follow_the_move(a: Binary64, b: Binary64, multiple: Binary64, wider: Binary64)
    requires
        !a.is_nan() && !b.is_nan() && !multiple.is_nan() && !wider.is_nan(),
        0 < multiple.scaled() <= wider.scaled(),
        a.scaled() <= b.scaled(),
    ensures
        label_of(a, multiple) <= label_of(b, multiple),
        label_of(a, multiple) == 1 ==> label_of(a, wider) == 1,
{
    law_negation(multiple);
    law_negation(wider);
}

/// The buckets of a label window fill it: so many fit into it, and one more does
/// not. A window shorter than a bucket counts as one bucket.
pub proof fn law_buckets_fill_the_window(window: int, width: int)
    requires
        width > 0,
    ensures
        ({
            let n = buckets_in_window(window, width);
            &&& n >= 1
            &&& window >= width ==> n * width <= window < (n + 1) * width
            &&& window < width ==> n == 1
        }),
{
    if window >= 0 {
        let q = window / width;
        assert(q * width <= window < (q + 1) * width && q >= 0) by (nonlinear_arith)
            requires
                q == window / width,
                width > 0,
                window >= 0,
        ;
        if window >= width {
            assert(q >= 1) by (nonlinear_arith)
                requires
                    window < (q + 1) * width,
                    window >= width,
                    width > 0,
            ;
        } else {
            assert(q < 1) by (nonlinear_arith)
                requires
                    q * width <= window,
                    window < width,
                    width > 0,
            ;
        }
    } else {
        let q = (-window) / width;
        assert(q >= 0) by (nonlinear_arith)
            requires
                q == (-window) / width,
                width > 0,
                window < 0,
        ;
    }
}

/// There can be a run where buckets have a width, every width is a number of 64
/// bits in microseconds, and the buckets of the label window can be counted.
pub proof fn law_runs_need_widths_that_fit(
    bucket_ms: int,
    label_window_secs: int,
    vol_window_secs: int,
)
    ensures
        ({
            let fits = |n: int| -0x8000_0000_0000_0000 <= n <= 0x7FFF_FFFF_FFFF_FFFF;
            widths_fit(bucket_ms, label_window_secs, vol_window_secs) <==> bucket_ms != 0 && fits(
                bucket_ms * 1_000,
            ) && fits(label_window_secs * 1_000_000) && fits(vol_window_secs * 1_000_000)
                && buckets_in_window(label_window_secs * 1_000_000, bucket_ms * 1_000)
                <= usize::MAX
        }),
{
}

} // verus!
