//! Decimal literals as text: the form in which a float literal's value is shown. The
//! literal `digits.digits` is shown the way Rust shows the `f64` it denotes, written out
//! from its digits: leading zeros of the whole part and trailing zeros of the fraction
//! dropped. For literals of up to fifteen significant digits this is exactly the text
//! Rust prints; longer ones are shown with all their digits, where Rust would round.

use vstd::prelude::*;
use crate::strs::{
    before_first, before_first_str, find_s, find_str, is_char, lead_count, lemma_find_from,
    occurs_at, trim_end_by, trim_end_char, trim_start_by, trim_start_char,
};
use crate::text::{chars_of, dec_digits, dec_int, push_char, push_decimal, push_str, string_from};

verus! {

/// The digits before the point (all of the text when there is no point).
pub open spec fn whole_digits(t: Seq<char>) -> Seq<char> {
    before_first(t, seq!['.'])
}

/// The digits after the first point (none when there is no point).
pub open spec fn frac_digits(t: Seq<char>) -> Seq<char> {
    match find_s(t, seq!['.']) {
        Some(i) => t.skip(i + 1),
        None => Seq::empty(),
    }
}

/// The whole part without its leading zeros.
pub open spec fn whole_sig(t: Seq<char>) -> Seq<char> {
    trim_start_by(whole_digits(t), is_char('0'))
}

/// The fraction without its trailing zeros.
pub open spec fn frac_sig(t: Seq<char>) -> Seq<char> {
    trim_end_by(frac_digits(t), is_char('0'))
}

/// `s`, or `0` when it is empty.
pub open spec fn or_zero(s: Seq<char>) -> Seq<char> {
    if s.len() == 0 {
        seq!['0']
    } else {
        s
    }
}

/// The value as `f64`'s `Display` shows it: no point when the fraction is zero.
pub closed spec fn float_display_s(t: Seq<char>) -> Seq<char> {
    or_zero(whole_sig(t)) + if frac_sig(t).len() == 0 {
        Seq::<char>::empty()
    } else {
        seq!['.'] + frac_sig(t)
    }
}

/// The significant digits, first nonzero digit to last nonzero digit.
pub open spec fn sig_digits(t: Seq<char>) -> Seq<char> {
    if whole_sig(t).len() > 0 {
        trim_end_by(whole_sig(t) + frac_sig(t), is_char('0'))
    } else {
        trim_start_by(frac_sig(t), is_char('0'))
    }
}

/// The power of ten of the first significant digit.
pub open spec fn exponent(t: Seq<char>) -> int {
    if whole_sig(t).len() > 0 {
        whole_sig(t).len() - 1
    } else {
        -(lead_count(frac_sig(t), is_char('0')) + 1)
    }
}

/// Whether `f64`'s `Debug` shows the value in exponent form: at least `1e16`, or nonzero and
/// below `1e-4`.
pub open spec fn debug_uses_exponent(t: Seq<char>) -> bool {
    whole_sig(t).len() >= 17 || (whole_sig(t).len() == 0 && frac_sig(t).len() > 0 && lead_count(
        frac_sig(t),
        is_char('0'),
    ) >= 4)
}

/// The value as `f64`'s `Debug` shows it: with at least one fraction digit, or in exponent
/// form (`1.5e-5`, `1e16`) for very large and very small values.
pub closed spec fn float_debug_s(t: Seq<char>) -> Seq<char> {
    if debug_uses_exponent(t) {
        let d = sig_digits(t);
        seq![d[0]] + (if d.len() > 1 {
            seq!['.'] + d.skip(1)
        } else {
            Seq::<char>::empty()
        }) + seq!['e'] + dec_int(exponent(t))
    } else {
        or_zero(whole_sig(t)) + seq!['.'] + or_zero(frac_sig(t))
    }
}

/// The whole part without leading zeros, and the fraction without trailing zeros.
fn sig_parts(t: &str) -> (r: (String, String))
    ensures
        r.0@ == whole_sig(t@),
        r.1@ == frac_sig(t@),
{
    proof {
        reveal_strlit(".");
        assert("."@ =~= seq!['.']);
    }
    let whole = before_first_str(t, ".");
    let frac = match find_str(t, ".") {
        Some(i) => {
            let cs = chars_of(t);
            let n = cs.len();
            proof {
                lemma_find_from(t@, seq!['.'], 0);
                assert(occurs_at(t@, seq!['.'], i as int));
            }
            crate::strs::slice_string(cs.as_slice(), i + 1, n)
        },
        None => String::new(),
    };
    (trim_start_char(whole.as_str(), '0'), trim_end_char(frac.as_str(), '0'))
}

/// `s`, or `0` when it is empty, appended to `out`.
fn push_or_zero(out: &mut String, s: &str)
    ensures
        final(out)@ == old(out)@ + or_zero(s@),
{
    if chars_of(s).len() == 0 {
        push_char(out, '0');
    } else {
        push_str(out, s);
    }
}

/// The float literal `t` as `f64`'s `Display` shows it.
pub fn float_display(t: &str) -> (r: String)
    ensures
        r@ == float_display_s(t@),
{
    let (w, f) = sig_parts(t);
    let mut r = String::new();
    push_or_zero(&mut r, w.as_str());
    if chars_of(f.as_str()).len() > 0 {
        push_char(&mut r, '.');
        push_str(&mut r, f.as_str());
    }
    assert(r@ =~= float_display_s(t@));
    r
}

/// The float literal `t` as `f64`'s `Debug` shows it.
pub fn float_debug(t: &str) -> (r: String)
    ensures
        r@ == float_debug_s(t@),
{
    let (w, f) = sig_parts(t);
    let wl = chars_of(w.as_str()).len();
    let fl = chars_of(f.as_str()).len();
    let f_trim = trim_start_char(f.as_str(), '0');
    let ftl = chars_of(f_trim.as_str()).len();
    proof {
        crate::strs::lemma_lead_count_bound(f@, is_char('0'));
    }
    let lead = fl - ftl;
    assert(lead == lead_count(f@, is_char('0')));
    let expo = wl >= 17 || (wl == 0 && fl > 0 && lead >= 4);
    let mut r = String::new();
    if expo {
        let d = if wl > 0 {
            let mut both = string_from(w.as_str());
            push_str(&mut both, f.as_str());
            trim_end_char(both.as_str(), '0')
        } else {
            f_trim
        };
        let dc = chars_of(d.as_str());
        proof {
            if wl > 0 {
                // a nonempty whole part starts with a nonzero digit, so some digit survives
                assert(w@.len() > 0);
                assert(w@[0] != '0') by {
                    let wd = whole_digits(t@);
                    let n = lead_count(wd, is_char('0'));
                    crate::strs::lemma_lead_count_bound(wd, is_char('0'));
                    lemma_lead_stops(wd, is_char('0'));
                    assert(w@[0] == wd[n as int]);
                }
                lemma_trail_keeps_head(w@ + f@);
            } else {
                let fd = frac_digits(t@);
                lemma_trail_stops(fd, is_char('0'));
                crate::strs::lemma_trail_count_bound(fd, is_char('0'));
                if f@.len() > 0 {
                    assert(f@.last() == fd[fd.len() - crate::strs::trail_count(fd, is_char('0')) - 1]);
                }
                lemma_lead_count_lt(f@);
            }
        }
        push_char(&mut r, dc[0]);
        if dc.len() > 1 {
            push_char(&mut r, '.');
            let rest = crate::strs::slice_string(dc.as_slice(), 1, dc.len());
            push_str(&mut r, rest.as_str());
        }
        push_char(&mut r, 'e');
        if wl > 0 {
            push_decimal(&mut r, (wl - 1) as u64);
        } else {
            push_char(&mut r, '-');
            push_decimal(&mut r, (lead + 1) as u64);
        }
        assert(dc@.skip(1) =~= dc@.subrange(1, dc@.len() as int));
        assert(r@ =~= float_debug_s(t@));
    } else {
        push_or_zero(&mut r, w.as_str());
        push_char(&mut r, '.');
        push_or_zero(&mut r, f.as_str());
        assert(r@ =~= float_debug_s(t@));
    }
    r
}

/// After its leading run, a sequence's next character does not satisfy the predicate.
proof fn lemma_lead_stops(s: Seq<char>, p: spec_fn(char) -> bool)
    ensures
        lead_count(s, p) < s.len() ==> !p(s[lead_count(s, p) as int]),
    decreases s.len(),
{
    if s.len() > 0 && p(s[0]) {
        lemma_lead_stops(s.drop_first(), p);
        if lead_count(s, p) < s.len() {
            assert(s[lead_count(s, p) as int] == s.drop_first()[lead_count(s.drop_first(), p) as int]);
        }
    }
}

/// Before its trailing run, a sequence's last character does not satisfy the predicate.
proof fn lemma_trail_stops(s: Seq<char>, p: spec_fn(char) -> bool)
    ensures
        crate::strs::trail_count(s, p) < s.len() ==> !p(
            s[s.len() - crate::strs::trail_count(s, p) - 1],
        ),
    decreases s.len(),
{
    if s.len() > 0 && p(s.last()) {
        lemma_trail_stops(s.drop_last(), p);
        if crate::strs::trail_count(s, p) < s.len() {
            let k = crate::strs::trail_count(s.drop_last(), p);
            assert(s[s.len() - crate::strs::trail_count(s, p) - 1] == s.drop_last()[s.drop_last().len() - k - 1]);
        }
    }
}

/// Trailing zeros never reach a first character that is not a zero.
proof fn lemma_trail_keeps_head(s: Seq<char>)
    requires
        s.len() > 0,
        s[0] != '0',
    ensures
        crate::strs::trail_count(s, is_char('0')) < s.len(),
    decreases s.len(),
{
    if s.len() > 1 && s.last() == '0' {
        lemma_trail_keeps_head(s.drop_last());
    }
}

/// A fraction without trailing zeros that is not empty has a nonzero digit.
proof fn lemma_lead_count_lt(f: Seq<char>)
    requires
        f.len() > 0 ==> f.last() != '0',
    ensures
        f.len() > 0 ==> lead_count(f, is_char('0')) < f.len(),
    decreases f.len(),
{
    if f.len() > 1 && f[0] == '0' {
        assert(f.drop_first().last() == f.last());
        lemma_lead_count_lt(f.drop_first());
    }
}

} // verus!
