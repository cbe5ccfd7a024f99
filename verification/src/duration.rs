//! The immutable value object holding a calendar duration's three counts,
//! and its English rendering.

use vstd::prelude::*;

verus! {

use vstd::string::StringExecFns;

/// A calendar duration is a duration which takes into account the calendar
/// dates involved: the number of whole years, whole months, and whole days
/// between two dates. See [`crate::CalendarDurationExt`].
#[derive(Debug, Clone)]
pub struct CalendarDuration {
    /// Number of whole years of duration.
    pub years: u32,
    /// Number of whole months in addition to the [`years`](Self::years).
    pub months: u8,
    /// Number of whole days in addition to the [`months`](Self::months) and
    /// [`years`](Self::years).
    pub days: u8,
}

/// The character for the decimal digit `k`.
pub open spec fn digit_char(k: int) -> char {
    if k == 0 {
        '0'
    } else if k == 1 {
        '1'
    } else if k == 2 {
        '2'
    } else if k == 3 {
        '3'
    } else if k == 4 {
        '4'
    } else if k == 5 {
        '5'
    } else if k == 6 {
        '6'
    } else if k == 7 {
        '7'
    } else if k == 8 {
        '8'
    } else {
        '9'
    }
}

/// The decimal digits of `n`, most significant first.
pub open spec fn dec_str(n: int) -> Seq<char>
    decreases n,
{
    if n < 10 {
        seq![digit_char(n)]
    } else {
        dec_str(n / 10).push(digit_char(n % 10))
    }
}

/// A decimal numeral has at least one digit.
proof fn lemma_dec_str_len(n: int)
    ensures
        dec_str(n).len() >= 1,
    decreases n,
{
    if n >= 10 {
        lemma_dec_str_len(n / 10);
    }
}

/// One rendered component: the count, the unit's name, and a plural `s`
/// for any count but one.
pub open spec fn unit_str(n: int, singular: Seq<char>, plural: Seq<char>) -> Seq<char> {
    dec_str(n) + if n == 1 {
        singular
    } else {
        plural
    }
}

/// Append a rendered component to what is already rendered, with a comma
/// between two present components.
pub open spec fn join_part(acc: Seq<char>, part: Seq<char>) -> Seq<char> {
    if part.len() == 0 {
        acc
    } else if acc.len() == 0 {
        part
    } else {
        acc + ", "@ + part
    }
}

/// The English rendering of a duration: the non-zero components in order
/// years, months, days, each with its pluralized unit, joined by commas;
/// the literal `same day` when all three counts are zero.
pub open spec fn render_spec(years: int, months: int, days: int) -> Seq<char> {
    if years == 0 && months == 0 && days == 0 {
        "same day"@
    } else {
        let py = if years > 0 {
            unit_str(years, " year"@, " years"@)
        } else {
            Seq::<char>::empty()
        };
        let pm = if months > 0 {
            unit_str(months, " month"@, " months"@)
        } else {
            Seq::<char>::empty()
        };
        let pd = if days > 0 {
            unit_str(days, " day"@, " days"@)
        } else {
            Seq::<char>::empty()
        };
        join_part(join_part(py, pm), pd)
    }
}

/// A zero duration renders as exactly `same day`.
///
/// This is the rendering half of the law that two equal dates yield the
/// zero duration and the text `same day`.
pub proof fn lemma_render_same_day()
    ensures
        render_spec(0, 0, 0) == "same day"@,
{
}

/// Append the decimal digits of `n` to `out`.
fn push_decimal(out: &mut String, n: u32)
    ensures
        final(out)@ == old(out)@ + dec_str(n as int),
    decreases n,
{
    let ghost pre = out@;
    if n >= 10 {
        push_decimal(out, n / 10);
    }
    let digit: &str = match n % 10 {
        0 => "0",
        1 => "1",
        2 => "2",
        3 => "3",
        4 => "4",
        5 => "5",
        6 => "6",
        7 => "7",
        8 => "8",
        _ => "9",
    };
    out.append(digit);
    proof {
        reveal_strlit("0");
        reveal_strlit("1");
        reveal_strlit("2");
        reveal_strlit("3");
        reveal_strlit("4");
        reveal_strlit("5");
        reveal_strlit("6");
        reveal_strlit("7");
        reveal_strlit("8");
        reveal_strlit("9");
        assert(digit@ =~= seq![digit_char(n as int % 10)]);
        assert(out@ =~= pre + dec_str(n as int));
    }
}

impl CalendarDuration {
    /// Render the duration in English: the non-zero counts with their
    /// units, in order and comma-separated, or `same day` when all three
    /// counts are zero.
    pub fn to_string(&self) -> (s: String)
        ensures
            s@ == render_spec(self.years as int, self.months as int, self.days as int),
    {
        let mut out = String::new();
        let mut any = false;
        let ghost py = if self.years > 0 {
            unit_str(self.years as int, " year"@, " years"@)
        } else {
            Seq::<char>::empty()
        };
        let ghost pm = if self.months > 0 {
            unit_str(self.months as int, " month"@, " months"@)
        } else {
            Seq::<char>::empty()
        };
        let ghost pd = if self.days > 0 {
            unit_str(self.days as int, " day"@, " days"@)
        } else {
            Seq::<char>::empty()
        };

        if self.years > 0 {
            push_decimal(&mut out, self.years);
            if self.years > 1 {
                out.append(" years");
            } else {
                out.append(" year");
            }
            any = true;
            proof {
                lemma_dec_str_len(self.years as int);
                assert(out@ =~= py);
            }
        }
        proof {
            assert(out@ == py);
            assert(any == (py.len() != 0)) by {
                if self.years > 0 {
                    lemma_dec_str_len(self.years as int);
                }
            }
        }

        if self.months > 0 {
            if any {
                out.append(", ");
            }
            push_decimal(&mut out, self.months as u32);
            if self.months > 1 {
                out.append(" months");
            } else {
                out.append(" month");
            }
            any = true;
            proof {
                lemma_dec_str_len(self.months as int);
                assert(out@ =~= join_part(py, pm));
            }
        }
        proof {
            assert(out@ == join_part(py, pm));
            assert(any == (join_part(py, pm).len() != 0)) by {
                if self.years > 0 {
                    lemma_dec_str_len(self.years as int);
                }
                if self.months > 0 {
                    lemma_dec_str_len(self.months as int);
                }
            }
        }

        if self.days > 0 {
            if any {
                out.append(", ");
            }
            push_decimal(&mut out, self.days as u32);
            if self.days > 1 {
                out.append(" days");
            } else {
                out.append(" day");
            }
            any = true;
            proof {
                lemma_dec_str_len(self.days as int);
                assert(out@ =~= join_part(join_part(py, pm), pd));
            }
        }

        if !any {
            out.append("same day");
            proof {
                assert(out@ =~= "same day"@);
            }
        }
        out
    }
}

} // verus!
