use vstd::prelude::*;

verus! {

/// The numeric value of a decimal digit character.
pub open spec fn char_digit(c: char) -> int {
    c as int - '0' as int
}

pub open spec fn is_dec_digit(c: char) -> bool {
    '0' as int <= c as int && c as int <= '9' as int
}

pub open spec fn all_digits(s: Seq<char>) -> bool {
    forall|i: int| 0 <= i < s.len() ==> is_dec_digit(#[trigger] s[i])
}

/// The value of a digit string read left to right, starting from an
/// accumulated prefix value.
pub open spec fn digits_value(s: Seq<char>, acc: int) -> int
    decreases s.len(),
{
    if s.len() == 0 {
        acc
    } else {
        digits_value(s.drop_first(), acc * 10 + char_digit(s.first()))
    }
}

/// The digits of a number token, once an optional leading plus sign is
/// stripped.
pub open spec fn strip_plus(s: Seq<char>) -> Seq<char> {
    if s.len() > 0 && s[0] == '+' {
        s.drop_first()
    } else {
        s
    }
}

/// What `str::parse::<u32>` accepts: an optional leading plus sign, then
/// one or more decimal digits whose value fits.
pub open spec fn parse_u32_spec(s: Seq<char>) -> Option<u32> {
    let digits = strip_plus(s);
    if digits.len() == 0 || !all_digits(digits) || digits_value(digits, 0) > u32::MAX {
        None
    } else {
        Some(digits_value(digits, 0) as u32)
    }
}

pub proof fn lemma_digits_value_push(s: Seq<char>, c: char, acc: int)
    ensures
        digits_value(s.push(c), acc) == digits_value(s, acc) * 10 + char_digit(c),
    decreases s.len(),
{
    let t = s.push(c);
    if s.len() == 0 {
        assert(t.first() == c);
        assert(t.drop_first() =~= Seq::<char>::empty());
        assert(digits_value(t, acc) == digits_value(t.drop_first(), acc * 10 + char_digit(c)));
        assert(digits_value(t.drop_first(), acc * 10 + char_digit(c)) == acc * 10 + char_digit(c));
        assert(digits_value(s, acc) == acc);
    } else {
        assert(t.first() == s.first());
        assert(t.drop_first() =~= s.drop_first().push(c));
        assert(digits_value(t, acc) == digits_value(
            s.drop_first().push(c),
            acc * 10 + char_digit(s.first()),
        ));
        lemma_digits_value_push(s.drop_first(), c, acc * 10 + char_digit(s.first()));
        assert(digits_value(s, acc) == digits_value(
            s.drop_first(),
            acc * 10 + char_digit(s.first()),
        ));
    }
}

pub proof fn lemma_digits_value_concat(a: Seq<char>, b: Seq<char>, acc: int)
    ensures
        digits_value(a + b, acc) == digits_value(b, digits_value(a, acc)),
    decreases a.len(),
{
    if a.len() == 0 {
        assert(a + b =~= b);
    } else {
        assert((a + b).drop_first() =~= a.drop_first() + b);
        assert((a + b).first() == a.first());
        lemma_digits_value_concat(a.drop_first(), b, acc * 10 + char_digit(a.first()));
    }
}

pub proof fn lemma_digits_value_lower(s: Seq<char>, acc: int)
    requires
        acc >= 0,
        all_digits(s),
    ensures
        digits_value(s, acc) >= acc,
    decreases s.len(),
{
    if s.len() > 0 {
        assert(is_dec_digit(s.first()));
        assert(all_digits(s.drop_first())) by {
            assert forall|i: int| 0 <= i < s.drop_first().len() implies is_dec_digit(
                #[trigger] s.drop_first()[i],
            ) by {
                assert(s.drop_first()[i] == s[i + 1]);
            }
        }
        lemma_digits_value_lower(s.drop_first(), acc * 10 + char_digit(s.first()));
    }
}

/// The character of a decimal digit value.
pub open spec fn digit_char(d: int) -> char {
    if d == 0 {
        '0'
    } else if d == 1 {
        '1'
    } else if d == 2 {
        '2'
    } else if d == 3 {
        '3'
    } else if d == 4 {
        '4'
    } else if d == 5 {
        '5'
    } else if d == 6 {
        '6'
    } else if d == 7 {
        '7'
    } else if d == 8 {
        '8'
    } else {
        '9'
    }
}

/// The canonical decimal form of a nonnegative number: most significant
/// digit first, no leading zeros.
pub open spec fn dec_digits(n: int) -> Seq<char>
    decreases n,
{
    if n < 10 {
        seq![digit_char(n)]
    } else {
        dec_digits(n / 10).push(digit_char(n % 10))
    }
}

/// Reading the canonical decimal form back yields the number.
pub proof fn lemma_dec_digits_value(n: int)
    requires
        n >= 0,
    ensures
        all_digits(dec_digits(n)),
        1 <= dec_digits(n).len(),
        digits_value(dec_digits(n), 0) == n,
    decreases n,
{
    if n < 10 {
        let t = dec_digits(n);
        assert(t =~= Seq::<char>::empty().push(digit_char(n)));
        assert(t.first() == digit_char(n));
        assert(t.drop_first() =~= Seq::<char>::empty());
        assert(digits_value(t, 0) == digits_value(t.drop_first(), char_digit(digit_char(n))));
        assert(digits_value(t.drop_first(), char_digit(digit_char(n))) == char_digit(
            digit_char(n),
        ));
        assert(char_digit(digit_char(n)) == n);
    } else {
        lemma_dec_digits_value(n / 10);
        lemma_digits_value_push(dec_digits(n / 10), digit_char(n % 10), 0);
        assert(char_digit(digit_char(n % 10)) == n % 10);
        assert(all_digits(dec_digits(n))) by {
            let s = dec_digits(n / 10);
            let t = dec_digits(n);
            assert(t =~= s.push(digit_char(n % 10)));
            assert forall|i: int| 0 <= i < t.len() implies is_dec_digit(#[trigger] t[i]) by {
                if i < s.len() {
                    assert(t[i] == s[i]);
                }
            }
        }
    }
}

/// The canonical decimal form has no redundant leading zero: it is one
/// digit long, or starts with a nonzero digit.
pub proof fn lemma_dec_digits_leading(n: int)
    requires
        n >= 0,
    ensures
        dec_digits(n).len() >= 1,
        n >= 1 ==> dec_digits(n)[0] != '0',
        dec_digits(n).len() > 1 ==> dec_digits(n)[0] != '0',
    decreases n,
{
    if n < 10 {
        assert(dec_digits(n) =~= Seq::<char>::empty().push(digit_char(n)));
        assert(n >= 1 ==> digit_char(n) != '0');
    } else {
        lemma_dec_digits_leading(n / 10);
        assert(dec_digits(n)[0] == dec_digits(n / 10)[0]);
        assert(n / 10 >= 1);
    }
}

/// A rendered number parses back to itself.
pub proof fn lemma_parse_renders_back(n: u32)
    ensures
        parse_u32_spec(dec_digits(n as int)) == Some(n),
{
    let d = dec_digits(n as int);
    lemma_dec_digits_value(n as int);
    assert(is_dec_digit(d[0]));
    assert(d[0] != '+');
    assert(strip_plus(d) == d);
}

fn digit_str(d: u32) -> (r: &'static str)
    requires
        d < 10,
    ensures
        r@ =~= seq![digit_char(d as int)],
{
    match d {
        0 => {
            proof {
                reveal_strlit("0");
            }
            "0"
        },
        1 => {
            proof {
                reveal_strlit("1");
            }
            "1"
        },
        2 => {
            proof {
                reveal_strlit("2");
            }
            "2"
        },
        3 => {
            proof {
                reveal_strlit("3");
            }
            "3"
        },
        4 => {
            proof {
                reveal_strlit("4");
            }
            "4"
        },
        5 => {
            proof {
                reveal_strlit("5");
            }
            "5"
        },
        6 => {
            proof {
                reveal_strlit("6");
            }
            "6"
        },
        7 => {
            proof {
                reveal_strlit("7");
            }
            "7"
        },
        8 => {
            proof {
                reveal_strlit("8");
            }
            "8"
        },
        _ => {
            proof {
                reveal_strlit("9");
            }
            "9"
        },
    }
}

/// Render a number in decimal, most significant digit first.
pub fn u32_to_string(n: u32) -> (r: String)
    ensures
        r@ == dec_digits(n as int),
    decreases n,
{
    if n < 10 {
        let r = String::from_str(digit_str(n));
        proof {
            assert(r@ =~= dec_digits(n as int));
        }
        r
    } else {
        let mut s = u32_to_string(n / 10);
        s.append(digit_str(n % 10));
        proof {
            assert(s@ =~= dec_digits(n as int));
        }
        s
    }
}

/// The digit value of a character, if it is a decimal digit.
pub fn digit_of(c: char) -> (r: Option<u32>)
    ensures
        match r {
            Some(d) => is_dec_digit(c) && d == char_digit(c) && d < 10,
            None => !is_dec_digit(c),
        },
{
    let v = c as u32;
    if v >= 48 && v <= 57 {
        Some(v - 48)
    } else {
        None
    }
}

/// Parse a number the way `str::parse::<u32>` does: an optional leading
/// plus sign, then decimal digits; anything else, or a value that does not
/// fit, is rejected.
pub fn parse_u32(s: &str) -> (r: Option<u32>)
    ensures
        r == parse_u32_spec(s@),
{
    let len = s.unicode_len();
    let mut start: usize = 0;
    if len > 0 && s.get_char(0) == '+' {
        start = 1;
    }
    let ghost digits = s@.subrange(start as int, len as int);
    proof {
        if s@.len() > 0 && s@[0] == '+' {
            assert(digits =~= s@.drop_first());
        } else {
            assert(digits =~= s@);
        }
        assert(digits == strip_plus(s@));
    }
    if len == start {
        return None;
    }
    let mut acc: u32 = 0;
    let mut i: usize = start;
    while i < len
        invariant
            start <= i <= len,
            len == s@.len(),
            digits == s@.subrange(start as int, len as int),
            digits == strip_plus(s@),
            digits.len() > 0,
            all_digits(s@.subrange(start as int, i as int)),
            acc == digits_value(s@.subrange(start as int, i as int), 0),
        decreases len - i,
    {
        let c = s.get_char(i);
        let ghost prefix = s@.subrange(start as int, i as int);
        match digit_of(c) {
            None => {
                proof {
                    assert(digits[i - start] == c);
                    assert(!all_digits(digits));
                }
                return None;
            },
            Some(d) => {
                let next: u64 = acc as u64 * 10 + d as u64;
                proof {
                    lemma_digits_value_push(prefix, c, 0);
                    assert(prefix.push(c) =~= s@.subrange(start as int, i + 1 as int));
                }
                if next > u32::MAX as u64 {
                    proof {
                        let rest = s@.subrange(i + 1 as int, len as int);
                        assert(digits =~= prefix.push(c) + rest);
                        if all_digits(digits) {
                            lemma_digits_value_concat(prefix.push(c), rest, 0);
                            assert(all_digits(rest)) by {
                                assert forall|j: int| 0 <= j < rest.len() implies is_dec_digit(
                                    #[trigger] rest[j],
                                ) by {
                                    assert(rest[j] == digits[j + (i + 1 - start)]);
                                }
                            }
                            lemma_digits_value_lower(rest, digits_value(prefix.push(c), 0));
                        }
                    }
                    return None;
                }
                acc = next as u32;
            },
        }
        i += 1;
    }
    proof {
        assert(s@.subrange(start as int, i as int) =~= digits);
    }
    Some(acc)
}

} // verus!
