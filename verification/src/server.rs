//! The command protocol's data model and dispatch logic: requests are
//! `{target, cmd, opts}` triples of strings, responses carry a return code, a
//! message and a payload. The dispatchers mutate the shared state and say
//! which replies and pushes to write; the surrounding process does the
//! socket work.

use vstd::prelude::*;

use crate::config::Config;
use crate::config::HookKind;
use crate::config::MixerConfig;
use crate::config::Notice;
use crate::config::PortInfo;
use crate::gain::BAL_MAX;
use crate::gain::VOL_MAX;
use crate::jacon::Signals;
use crate::utils::Connections;

verus! {

broadcast use vstd::utf8::char_u32_cast;

/// One protocol request.
pub struct Command {
    pub target: String,
    pub cmd: String,
    pub opts: Vec<String>,
}

/// A response payload.
pub enum RespObj {
    Null,
    Info(PortInfo),
    Channels { inputs: Vec<PortInfo>, outputs: Vec<PortInfo> },
    Connection { output_name: String, input_name: String },
}

/// One protocol response: 0 is success, 1 a bad request, 2 a missing port.
pub struct Response {
    pub ret: i32,
    pub msg: String,
    pub obj: RespObj,
}

/// Which subsystem a request goes to.
#[derive(Clone, Copy, PartialEq, Eq, Structural, Debug)]
pub enum Target {
    Myx,
    Con,
    All,
    Unknown,
}

/// The dispatcher a request's target names: the mixer, the connection kit,
/// both, or nobody.
pub struct CmdSender {}

impl CmdSender {
    /// Route by target name, as the wire protocol spells it.
    pub fn classify(target: &String) -> (t: Target)
        ensures
            t == Target::Myx <==> target@ == "myx"@,
            t == Target::Con <==> target@ == "con"@,
            t == Target::All <==> target@ == "all"@,
    {
        proof {
            reveal_strlit("myx");
            reveal_strlit("con");
            reveal_strlit("all");
            assert("myx"@ != "con"@) by {
                assert("myx"@[0] == 'm' && "con"@[0] == 'c');
            }
            assert("myx"@ != "all"@) by {
                assert("myx"@[0] == 'm' && "all"@[0] == 'a');
            }
            assert("con"@ != "all"@) by {
                assert("con"@[0] == 'c' && "all"@[0] == 'a');
            }
        }
        if crate::utils::str_eq(target.as_str(), "myx") {
            Target::Myx
        } else if crate::utils::str_eq(target.as_str(), "con") {
            Target::Con
        } else if crate::utils::str_eq(target.as_str(), "all") {
            Target::All
        } else {
            Target::Unknown
        }
    }
}

/// A decimal digit.
pub open spec fn spec_is_digit(c: char) -> bool {
    48 <= c as u32 <= 57
}

/// Its value.
pub open spec fn spec_digit(c: char) -> int {
    c as u32 - 48
}

/// The value of a digit string, most significant first.
pub open spec fn spec_digits_val(s: Seq<char>) -> int
    decreases s.len(),
{
    if s.len() == 0 {
        0int
    } else {
        spec_digits_val(s.drop_last()) * 10 + spec_digit(s.last())
    }
}

/// All characters are digits.
pub open spec fn spec_all_digits(s: Seq<char>) -> bool {
    forall|k: int| 0 <= k < s.len() ==> spec_is_digit(#[trigger] s[k])
}

/// The value contributed by a fraction part, kept to hundredths (further
/// digits are ignored).
pub open spec fn spec_frac_val(s: Seq<char>) -> int {
    (if s.len() >= 1 {
        spec_digit(s[0]) * 10
    } else {
        0int
    }) + (if s.len() >= 2 {
        spec_digit(s[1])
    } else {
        0int
    })
}

/// A well-formed unsigned token: up to seven integer digits, optionally
/// followed by a dot and further digits. One of the two parts may be empty,
/// not both.
pub open spec fn spec_body_wf(b: Seq<char>) -> bool {
    if exists|k: int| 0 <= k < b.len() && (#[trigger] b[k]) == '.' {
        let k = choose|k: int| 0 <= k < b.len() && (#[trigger] b[k]) == '.';
        &&& b.len() >= 2
        &&& spec_all_digits(b.subrange(0, k))
        &&& spec_all_digits(b.subrange(k + 1, b.len() as int))
        &&& forall|m: int| 0 <= m < b.len() && m != k ==> (#[trigger] b[m]) != '.'
        &&& k <= 7
    } else {
        1 <= b.len() <= 7 && spec_all_digits(b)
    }
}

/// The value of a well-formed unsigned token, in hundredths.
pub open spec fn spec_body_val(b: Seq<char>) -> int {
    if exists|k: int| 0 <= k < b.len() && (#[trigger] b[k]) == '.' {
        let k = choose|k: int| 0 <= k < b.len() && (#[trigger] b[k]) == '.';
        spec_digits_val(b.subrange(0, k)) * 100 + spec_frac_val(
            b.subrange(k + 1, b.len() as int),
        )
    } else {
        spec_digits_val(b) * 100
    }
}

/// The parsed value of a token in hundredths: an optional minus sign, then a
/// well-formed unsigned body, within the given magnitude.
pub open spec fn spec_parse_fixed(s: Seq<char>, max: int) -> Option<int> {
    let neg = s.len() > 0 && s[0] == '-';
    let b = if neg {
        s.skip(1)
    } else {
        s
    };
    if spec_body_wf(b) {
        let v = if neg {
            -spec_body_val(b)
        } else {
            spec_body_val(b)
        };
        if -max <= v <= max {
            Some(v)
        } else {
            None
        }
    } else {
        None
    }
}

/// Parse a decimal token like `42`, `-0.5` or `107.25` into hundredths,
/// rejecting anything malformed or out of range.
pub fn parse_fixed(s: &str, max: i64) -> (r: Option<i64>)
    requires
        0 < max <= 100_000_000,
    ensures
        r is Some <==> spec_parse_fixed(s@, max as int) is Some,
        r is Some ==> r->Some_0 == spec_parse_fixed(s@, max as int)->Some_0,
{
    let len = s.unicode_len();
    if len == 0 {
        return None;
    }
    let c0 = s.get_char(0);
    let neg = (c0 as u32) == 45;
    proof {
        assert(('-' as u32) == 45);
        assert(neg == (s@[0] == '-'));
    }
    let start: usize = if neg {
        1
    } else {
        0
    };
    let ghost b = if neg {
        s@.skip(1)
    } else {
        s@
    };
    proof {
        assert(b.len() == len - start);
        assert(forall|k: int| 0 <= k < b.len() ==> b[k] == s@[k + start]);
    }
    // find the dot, reject a second one or any non-digit
    let mut dot: Option<usize> = None;
    let mut j: usize = start;
    while j < len
        invariant
            len == s@.len(),
            start <= j <= len,
            start <= 1,
            neg == (s@.len() > 0 && s@[0] == '-'),
            b == (if neg {
                s@.skip(1)
            } else {
                s@
            }),
            start == (if neg {
                1int
            } else {
                0int
            }),
            0 < max <= 100_000_000,
            b.len() == len - start,
            forall|k: int| 0 <= k < b.len() ==> b[k] == s@[k + start],
            match dot {
                Some(dj) => start <= dj < j && s@[dj as int] == '.' && (forall|m: int|
                    start <= m < j && m != dj ==> (#[trigger] s@[m]) != '.'),
                None => forall|m: int| start <= m < j ==> (#[trigger] s@[m]) != '.',
            },
            forall|m: int|
                start <= m < j && (match dot {
                    Some(dj) => m != dj,
                    None => true,
                }) ==> spec_is_digit(#[trigger] s@[m]),
        decreases len - j,
    {
        let c = s.get_char(j);
        let cu = c as u32;
        proof {
            assert(('.' as u32) == 46);
            assert((cu == 46) == (s@[j as int] == '.'));
            assert((48 <= cu <= 57) == spec_is_digit(s@[j as int]));
        }
        if cu == 46 {
            if dot.is_some() {
                proof {
                    lemma_parse_invalid_two_dots(s@, b, start as int, dot->Some_0 as int, j as int);
                    assert(spec_parse_fixed(s@, max as int) is None) by {
                        assert(b == (if s@.len() > 0 && s@[0] == '-' {
                            s@.skip(1)
                        } else {
                            s@
                        }));
                    }
                }
                return None;
            }
            dot = Some(j);
        } else if cu < 48 || cu > 57 {
            proof {
                lemma_parse_invalid_char(s@, b, start as int, j as int, dot);
                assert(spec_parse_fixed(s@, max as int) is None) by {
                    assert(b == (if s@.len() > 0 && s@[0] == '-' {
                        s@.skip(1)
                    } else {
                        s@
                    }));
                }
            }
            return None;
        }
        j = j + 1;
    }
    // the body is well formed except possibly for emptiness or length
    let int_len: usize = match dot {
        Some(dj) => dj - start,
        None => len - start,
    };
    if int_len > 7 {
        proof {
            lemma_parse_invalid_long(s@, b, start as int, dot, int_len as int);
            assert(spec_parse_fixed(s@, max as int) is None) by {
                assert(b == (if s@.len() > 0 && s@[0] == '-' {
                    s@.skip(1)
                } else {
                    s@
                }));
            }
        }
        return None;
    }
    if len - start < 1 || (dot.is_some() && len - start < 2) {
        proof {
            lemma_parse_invalid_short(s@, b, start as int, dot);
            assert(spec_parse_fixed(s@, max as int) is None) by {
                assert(b == (if s@.len() > 0 && s@[0] == '-' {
                    s@.skip(1)
                } else {
                    s@
                }));
            }
        }
        return None;
    }
    proof {
        lemma_parse_body_ok(s@, b, start as int, dot, int_len as int);
    }
    // integer part
    let mut acc: i64 = 0;
    let mut j: usize = 0;
    while j < int_len
        invariant
            len == s@.len(),
            start <= 1,
            start + int_len <= len,
            int_len <= 7,
            b.len() == len - start,
            forall|k: int| 0 <= k < b.len() ==> b[k] == s@[k + start],
            forall|m: int| 0 <= m < int_len ==> spec_is_digit(#[trigger] b[m]),
            j <= int_len,
            0 <= acc <= 10_000_000,
            acc == spec_digits_val(b.subrange(0, j as int)),
        decreases int_len - j,
    {
        let c = s.get_char(start + j);
        proof {
            assert(b[j as int] == s@[j as int + start]);
            assert(b.subrange(0, j as int + 1).drop_last() =~= b.subrange(0, j as int));
            assert(b.subrange(0, j as int + 1).last() == b[j as int]);
            lemma_digits_val_bound(b.subrange(0, j as int));
        }
        acc = acc * 10 + ((c as u32) as i64 - 48);
        j = j + 1;
    }
    proof {
        lemma_digits_val_bound(b.subrange(0, int_len as int));
    }
    // fraction part: the first two digits after the dot
    let mut frac: i64 = 0;
    match dot {
        Some(dj) => {
            if dj + 1 < len {
                let c = s.get_char(dj + 1);
                frac = ((c as u32) as i64 - 48) * 10;
            }
            if dj + 2 < len {
                let c = s.get_char(dj + 2);
                frac = frac + ((c as u32) as i64 - 48);
            }
        },
        None => {},
    }
    let v = acc * 100 + frac;
    let v = if neg {
        -v
    } else {
        v
    };
    proof {
        lemma_parse_value(s@, b, start as int, dot, int_len as int, acc as int, frac as int);
        assert(b == (if s@.len() > 0 && s@[0] == '-' {
            s@.skip(1)
        } else {
            s@
        }));
        assert(spec_parse_fixed(s@, max as int) == (if -max <= v <= max {
            Some(v as int)
        } else {
            None
        }));
    }
    if v < -max || v > max {
        return None;
    }
    Some(v)
}

/// A digit string's value is nonnegative and below ten to its length; up to
/// seven digits stay below ten million.
proof fn lemma_digits_val_bound(s: Seq<char>)
    requires
        spec_all_digits(s),
        s.len() <= 7,
    ensures
        0 <= spec_digits_val(s) < 10_000_000,
        s.len() < 7 ==> spec_digits_val(s) < 1_000_000,
        s.len() < 6 ==> spec_digits_val(s) < 100_000,
        s.len() < 5 ==> spec_digits_val(s) < 10_000,
        s.len() < 4 ==> spec_digits_val(s) < 1_000,
        s.len() < 3 ==> spec_digits_val(s) < 100,
        s.len() < 2 ==> spec_digits_val(s) < 10,
    decreases s.len(),
{
    if s.len() > 0 {
        assert(spec_all_digits(s.drop_last())) by {
            assert(forall|k: int| 0 <= k < s.len() - 1 ==> s.drop_last()[k] == s[k]);
        }
        lemma_digits_val_bound(s.drop_last());
    }
}

/// A second dot makes the token malformed.
proof fn lemma_parse_invalid_two_dots(s: Seq<char>, b: Seq<char>, start: int, d1: int, d2: int)
    requires
        0 <= start <= 1,
        b.len() == s.len() - start,
        forall|k: int| 0 <= k < b.len() ==> b[k] == s[k + start],
        start <= d1 < d2 < s.len(),
        s[d1] == '.',
        s[d2] == '.',
    ensures
        !spec_body_wf(b),
{
    assert(b[d1 - start] == '.');
    assert(b[d2 - start] == '.');
    if spec_body_wf(b) {
        let k = choose|k: int| 0 <= k < b.len() && (#[trigger] b[k]) == '.';
        assert(d1 - start != k || d2 - start != k);
        assert(false);
    }
}

/// A character that is neither digit nor dot makes the token malformed.
proof fn lemma_parse_invalid_char(
    s: Seq<char>,
    b: Seq<char>,
    start: int,
    j: int,
    dot: Option<usize>,
)
    requires
        0 <= start <= 1,
        b.len() == s.len() - start,
        forall|k: int| 0 <= k < b.len() ==> b[k] == s[k + start],
        start <= j < s.len(),
        !spec_is_digit(s[j]),
        s[j] != '.',
    ensures
        !spec_body_wf(b),
{
    assert(b[j - start] == s[j]);
    if spec_body_wf(b) {
        if exists|k: int| 0 <= k < b.len() && (#[trigger] b[k]) == '.' {
            let k = choose|k: int| 0 <= k < b.len() && (#[trigger] b[k]) == '.';
            if j - start < k {
                assert(b.subrange(0, k)[j - start] == b[j - start]);
            } else if j - start > k {
                assert(b.subrange(k + 1, b.len() as int)[j - start - k - 1] == b[j - start]);
            }
            assert(false);
        } else {
            assert(spec_is_digit(b[j - start]));
            assert(false);
        }
    }
}

/// More than seven integer digits make the token malformed.
proof fn lemma_parse_invalid_long(
    s: Seq<char>,
    b: Seq<char>,
    start: int,
    dot: Option<usize>,
    int_len: int,
)
    requires
        0 <= start <= 1,
        b.len() == s.len() - start,
        forall|k: int| 0 <= k < b.len() ==> b[k] == s[k + start],
        match dot {
            Some(dj) => start <= dj < s.len() && s[dj as int] == '.' && int_len == dj - start,
            None => int_len == s.len() - start && (forall|m: int|
                start <= m < s.len() ==> (#[trigger] s[m]) != '.'),
        },
        int_len > 7,
    ensures
        !spec_body_wf(b),
{
    if spec_body_wf(b) {
        match dot {
            Some(dj) => {
                assert(b[dj - start] == '.');
                let k = choose|k: int| 0 <= k < b.len() && (#[trigger] b[k]) == '.';
                if k != dj - start {
                    assert(b.subrange(0, k).len() == k);
                    if dj - start < k {
                        assert(b.subrange(0, k)[dj - start] == b[dj - start]);
                        assert(spec_is_digit('.'));
                    } else {
                        assert(b.subrange(k + 1, b.len() as int)[dj - start - k - 1] == b[dj
                            - start]);
                        assert(spec_is_digit('.'));
                    }
                    assert(false);
                }
                assert(k > 7);
                assert(false);
            },
            None => {
                if exists|k: int| 0 <= k < b.len() && (#[trigger] b[k]) == '.' {
                    let k = choose|k: int| 0 <= k < b.len() && (#[trigger] b[k]) == '.';
                    assert(s[k + start] == '.');
                    assert(false);
                }
                assert(b.len() > 7);
                assert(false);
            },
        }
    }
}

/// An empty body, or a dot with nothing else, is malformed.
proof fn lemma_parse_invalid_short(s: Seq<char>, b: Seq<char>, start: int, dot: Option<usize>)
    requires
        0 <= start <= 1,
        b.len() == s.len() - start,
        forall|k: int| 0 <= k < b.len() ==> b[k] == s[k + start],
        match dot {
            Some(dj) => start <= dj < s.len() && s[dj as int] == '.',
            None => true,
        },
        s.len() - start < 1 || (dot is Some && s.len() - start < 2),
    ensures
        !spec_body_wf(b),
{
    if spec_body_wf(b) {
        if exists|k: int| 0 <= k < b.len() && (#[trigger] b[k]) == '.' {
            assert(b.len() >= 2);
            assert(false);
        } else {
            assert(b.len() >= 1);
            match dot {
                Some(dj) => {
                    assert(b[dj - start] == '.');
                    assert(false);
                },
                None => {
                    assert(false);
                },
            }
        }
    }
}

/// After a full scan that found only digits and at most one dot, the body is
/// well formed and its parts are the scanned ranges.
proof fn lemma_parse_body_ok(
    s: Seq<char>,
    b: Seq<char>,
    start: int,
    dot: Option<usize>,
    int_len: int,
)
    requires
        0 <= start <= 1,
        b.len() == s.len() - start,
        forall|k: int| 0 <= k < b.len() ==> b[k] == s[k + start],
        match dot {
            Some(dj) => start <= dj < s.len() && s[dj as int] == '.' && int_len == dj - start && (
            forall|m: int| start <= m < s.len() && m != dj ==> (#[trigger] s[m]) != '.'),
            None => int_len == s.len() - start && (forall|m: int|
                start <= m < s.len() ==> (#[trigger] s[m]) != '.'),
        },
        forall|m: int|
            start <= m < s.len() && (match dot {
                Some(dj) => m != dj,
                None => true,
            }) ==> spec_is_digit(#[trigger] s[m]),
        0 <= int_len <= 7,
        s.len() - start >= 1,
        dot is Some ==> s.len() - start >= 2,
    ensures
        spec_body_wf(b),
        forall|m: int| 0 <= m < int_len ==> spec_is_digit(#[trigger] b[m]),
        match dot {
            Some(dj) => spec_body_val(b) == spec_digits_val(b.subrange(0, int_len)) * 100
                + spec_frac_val(b.subrange(int_len + 1, b.len() as int)),
            None => spec_body_val(b) == spec_digits_val(b.subrange(0, int_len)) * 100 && b.subrange(
                0,
                int_len,
            ) =~= b,
        },
{
    match dot {
        Some(dj) => {
            let kd = dj - start;
            assert(b[kd] == '.');
            assert forall|k2: int| 0 <= k2 < b.len() && (#[trigger] b[k2]) == '.' implies k2
                == kd by {
                assert(s[k2 + start] == '.');
            }
            let k = choose|k: int| 0 <= k < b.len() && (#[trigger] b[k]) == '.';
            assert(k == kd);
            assert(spec_all_digits(b.subrange(0, k))) by {
                assert(forall|m: int| 0 <= m < k ==> b.subrange(0, k)[m] == b[m]);
            }
            assert(spec_all_digits(b.subrange(k + 1, b.len() as int))) by {
                assert(forall|m: int|
                    0 <= m < b.len() - k - 1 ==> (#[trigger] b.subrange(k + 1, b.len() as int)[m])
                        == b[m + k + 1]);
            }
            assert(forall|m: int| 0 <= m < int_len ==> b[m] == b.subrange(0, k)[m]);
        },
        None => {
            if exists|k: int| 0 <= k < b.len() && (#[trigger] b[k]) == '.' {
                let k = choose|k: int| 0 <= k < b.len() && (#[trigger] b[k]) == '.';
                assert(s[k + start] == '.');
                assert(false);
            }
            assert(spec_all_digits(b));
            assert(b.subrange(0, int_len) =~= b);
        },
    }
}

/// The accumulated integer and fraction parts equal the token's value.
proof fn lemma_parse_value(
    s: Seq<char>,
    b: Seq<char>,
    start: int,
    dot: Option<usize>,
    int_len: int,
    acc: int,
    frac: int,
)
    requires
        0 <= start <= 1,
        b.len() == s.len() - start,
        forall|k: int| 0 <= k < b.len() ==> b[k] == s[k + start],
        spec_body_wf(b),
        acc == spec_digits_val(b.subrange(0, int_len)),
        match dot {
            Some(dj) => start <= dj < s.len() && s[dj as int] == '.' && int_len == dj - start
                && frac == (if dj + 1 < s.len() {
                spec_digit(s[dj + 1]) * 10
            } else {
                0int
            }) + (if dj + 2 < s.len() {
                spec_digit(s[dj + 2])
            } else {
                0int
            }),
            None => int_len == s.len() - start && frac == 0 && (forall|m: int|
                start <= m < s.len() ==> (#[trigger] s[m]) != '.'),
        },
    ensures
        spec_body_val(b) == acc * 100 + frac,
{
    match dot {
        Some(dj) => {
            let kd = dj - start;
            assert(b[kd] == '.');
            let k = choose|k: int| 0 <= k < b.len() && (#[trigger] b[k]) == '.';
            assert forall|k2: int| 0 <= k2 < b.len() && (#[trigger] b[k2]) == '.' implies k2
                == kd by {
                if k2 != kd {
                    assert(s[k2 + start] == '.');
                }
            }
            assert(k == kd);
            let fr = b.subrange(k + 1, b.len() as int);
            assert(fr.len() >= 1 ==> fr[0] == b[k + 1] && b[k + 1] == s[dj + 1]);
            assert(fr.len() >= 2 ==> fr[1] == b[k + 2] && b[k + 2] == s[dj + 2]);
            assert(spec_frac_val(fr) == frac);
        },
        None => {
            if exists|k: int| 0 <= k < b.len() && (#[trigger] b[k]) == '.' {
                let k = choose|k: int| 0 <= k < b.len() && (#[trigger] b[k]) == '.';
                assert(s[k + start] == '.');
                assert(false);
            }
            assert(b.subrange(0, int_len) =~= b);
        },
    }
}

/// The protocol's keywords are pairwise distinct.
proof fn lemma_words_distinct()
    ensures
        "con"@ != "dis"@,
        "con"@ != "tog"@,
        "con"@ != "get"@,
        "con"@ != "mon"@,
        "con"@ != "set"@,
        "dis"@ != "tog"@,
        "dis"@ != "get"@,
        "dis"@ != "mon"@,
        "dis"@ != "set"@,
        "tog"@ != "get"@,
        "tog"@ != "mon"@,
        "tog"@ != "set"@,
        "get"@ != "mon"@,
        "get"@ != "set"@,
        "mon"@ != "set"@,
        "ports"@ != "monitor"@,
        "ports"@ != "mon"@,
        "channels"@ != "monitor"@,
        "channels"@ != "mon"@,
        "volume"@ != "balance"@,
        "volume"@ != "bal"@,
        "volume"@ != "b"@,
        "vol"@ != "balance"@,
        "vol"@ != "bal"@,
        "vol"@ != "b"@,
        "v"@ != "balance"@,
        "v"@ != "bal"@,
        "v"@ != "b"@,
        "volume"@ != "monitor"@,
        "volume"@ != "mon"@,
        "volume"@ != "m"@,
        "vol"@ != "monitor"@,
        "vol"@ != "mon"@,
        "vol"@ != "m"@,
        "v"@ != "monitor"@,
        "v"@ != "mon"@,
        "v"@ != "m"@,
        "balance"@ != "monitor"@,
        "balance"@ != "mon"@,
        "balance"@ != "m"@,
        "bal"@ != "monitor"@,
        "bal"@ != "mon"@,
        "bal"@ != "m"@,
        "b"@ != "monitor"@,
        "b"@ != "mon"@,
        "b"@ != "m"@,
{
    reveal_strlit("b");
    reveal_strlit("bal");
    reveal_strlit("balance");
    reveal_strlit("channels");
    reveal_strlit("con");
    reveal_strlit("dis");
    reveal_strlit("get");
    reveal_strlit("m");
    reveal_strlit("mon");
    reveal_strlit("monitor");
    reveal_strlit("ports");
    reveal_strlit("set");
    reveal_strlit("tog");
    reveal_strlit("v");
    reveal_strlit("vol");
    reveal_strlit("volume");
    assert("con"@ != "dis"@) by {
        assert("con"@[0] == 'c' && "dis"@[0] == 'd');
    }
    assert("con"@ != "tog"@) by {
        assert("con"@[0] == 'c' && "tog"@[0] == 't');
    }
    assert("con"@ != "get"@) by {
        assert("con"@[0] == 'c' && "get"@[0] == 'g');
    }
    assert("con"@ != "mon"@) by {
        assert("con"@[0] == 'c' && "mon"@[0] == 'm');
    }
    assert("con"@ != "set"@) by {
        assert("con"@[0] == 'c' && "set"@[0] == 's');
    }
    assert("dis"@ != "tog"@) by {
        assert("dis"@[0] == 'd' && "tog"@[0] == 't');
    }
    assert("dis"@ != "get"@) by {
        assert("dis"@[0] == 'd' && "get"@[0] == 'g');
    }
    assert("dis"@ != "mon"@) by {
        assert("dis"@[0] == 'd' && "mon"@[0] == 'm');
    }
    assert("dis"@ != "set"@) by {
        assert("dis"@[0] == 'd' && "set"@[0] == 's');
    }
    assert("tog"@ != "get"@) by {
        assert("tog"@[0] == 't' && "get"@[0] == 'g');
    }
    assert("tog"@ != "mon"@) by {
        assert("tog"@[0] == 't' && "mon"@[0] == 'm');
    }
    assert("tog"@ != "set"@) by {
        assert("tog"@[0] == 't' && "set"@[0] == 's');
    }
    assert("get"@ != "mon"@) by {
        assert("get"@[0] == 'g' && "mon"@[0] == 'm');
    }
    assert("get"@ != "set"@) by {
        assert("get"@[0] == 'g' && "set"@[0] == 's');
    }
    assert("mon"@ != "set"@) by {
        assert("mon"@[0] == 'm' && "set"@[0] == 's');
    }
    assert("vol"@ != "bal"@) by {
        assert("vol"@[0] == 'v' && "bal"@[0] == 'b');
    }
    assert("v"@ != "b"@) by {
        assert("v"@[0] == 'v' && "b"@[0] == 'b');
    }
    assert("vol"@ != "mon"@) by {
        assert("vol"@[0] == 'v' && "mon"@[0] == 'm');
    }
    assert("v"@ != "m"@) by {
        assert("v"@[0] == 'v' && "m"@[0] == 'm');
    }
    assert("balance"@ != "monitor"@) by {
        assert("balance"@[0] == 'b' && "monitor"@[0] == 'm');
    }
    assert("bal"@ != "mon"@) by {
        assert("bal"@[0] == 'b' && "mon"@[0] == 'm');
    }
    assert("b"@ != "m"@) by {
        assert("b"@[0] == 'b' && "m"@[0] == 'm');
    }
}

/// A structured error reply.
fn err_reply(ret: i32, text: &str) -> (r: Response)
    ensures
        r.ret == ret,
        r.msg@ == text@,
        r.obj is Null,
{
    Response { ret, msg: text.to_owned(), obj: RespObj::Null }
}

/// `resp` is a success reply carrying the current descriptor of the channel.
pub open spec fn spec_info_reply(
    m: &MixerConfig,
    is_output: bool,
    name: Seq<char>,
    resp: Response,
) -> bool {
    &&& resp.ret == 0
    &&& resp.obj is Info
    &&& resp.obj->Info_0.port@ == name
    &&& resp.obj->Info_0.is_output == is_output
    &&& m.spec_cfg(is_output, name) is Some
    &&& resp.obj->Info_0.vol == m.spec_cfg(is_output, name)->Some_0.vol
    &&& resp.obj->Info_0.bal == m.spec_cfg(is_output, name)->Some_0.balance
    &&& resp.obj->Info_0.ismono == m.spec_cfg(is_output, name)->Some_0.mono
}

/// Build the descriptor reply for an existing channel.
fn info_reply(m: &MixerConfig, is_output: bool, name: &String) -> (r: Response)
    requires
        m.wf(),
        m.spec_port_exists(is_output, name@),
    ensures
        spec_info_reply(m, is_output, name@, r),
{
    match m.get_port_info(is_output, name) {
        Ok(info) => Response { ret: 0, msg: "info".to_owned(), obj: RespObj::Info(info) },
        Err(()) => {
            proof {
                assert(false);
            }
            Response { ret: 0, msg: String::new(), obj: RespObj::Null }
        },
    }
}

/// The protocol's spelling of a channel direction: the input words name the
/// input side, everything else the output side.
pub open spec fn spec_get_ptype(p: Seq<char>) -> bool {
    !(p == "input"@ || p == "in"@ || p == "i"@)
}

fn get_ptype(pt: &String) -> (r: bool)
    ensures
        r == spec_get_ptype(pt@),
{
    !(crate::utils::str_eq(pt.as_str(), "input") || crate::utils::str_eq(pt.as_str(), "in")
        || crate::utils::str_eq(pt.as_str(), "i"))
}

/// The verb names a volume word.
pub open spec fn spec_is_vol_word(w: Seq<char>) -> bool {
    w == "volume"@ || w == "vol"@ || w == "v"@
}

/// The verb names a balance word.
pub open spec fn spec_is_bal_word(w: Seq<char>) -> bool {
    w == "balance"@ || w == "bal"@ || w == "b"@
}

/// The verb names a connections word.
pub open spec fn spec_is_con_word(w: Seq<char>) -> bool {
    w == "connections"@ || w == "cons"@ || w == "con"@ || w == "c"@
}

fn is_vol_word(w: &String) -> (r: bool)
    ensures
        r == spec_is_vol_word(w@),
{
    crate::utils::str_eq(w.as_str(), "volume") || crate::utils::str_eq(w.as_str(), "vol")
        || crate::utils::str_eq(w.as_str(), "v")
}

fn is_bal_word(w: &String) -> (r: bool)
    ensures
        r == spec_is_bal_word(w@),
{
    crate::utils::str_eq(w.as_str(), "balance") || crate::utils::str_eq(w.as_str(), "bal")
        || crate::utils::str_eq(w.as_str(), "b")
}

fn is_con_word(w: &String) -> (r: bool)
    ensures
        r == spec_is_con_word(w@),
{
    crate::utils::str_eq(w.as_str(), "connections") || crate::utils::str_eq(w.as_str(), "cons")
        || crate::utils::str_eq(w.as_str(), "con") || crate::utils::str_eq(w.as_str(), "c")
}

/// What the mixer dispatcher decided: an immediate reply (none for a held
/// subscription or an ignored request), pushes to pending subscribers, and
/// whether the requesting stream is now held open as a subscriber.
pub struct MixerDispatch {
    pub reply: Option<Response>,
    pub notices: Vec<Notice>,
    pub hooked: bool,
}

/// Everything in the mixer state is unchanged.
pub open spec fn spec_mixer_unchanged(pre: &MixerConfig, post: &MixerConfig) -> bool {
    &&& post.connections == pre.connections
    &&& post.outputs == pre.outputs
    &&& post.inputs == pre.inputs
    &&& post.monitor == pre.monitor
    &&& forall|k2: HookKind, n2: Seq<char>| (#[trigger] post.spec_subs(k2, n2)) == pre.spec_subs(
        k2,
        n2,
    )
}

/// Handle one mixer-targeted request: the wiring verbs mutate the mixer's
/// bus graph, `get` reads descriptors, `mon` registers the requesting stream
/// (`sub`) as a one-shot subscriber, and `set` writes volume, balance or the
/// monitor selection, firing the matching subscriptions.
#[verifier::rlimit(60)]
pub fn dispatch_mixer(mixer: &mut MixerConfig, cmd: &Command, sub: u64) -> (r: MixerDispatch)
    requires
        old(mixer).wf(),
    ensures
        final(mixer).wf(),
        cmd.cmd@ == "con"@ || cmd.cmd@ == "dis"@ || cmd.cmd@ == "tog"@ ==> {
            if cmd.opts@.len() < 2 {
                &&& spec_mixer_unchanged(old(mixer), final(mixer))
                &&& r.reply is Some && r.reply->Some_0.ret == 1
                &&& r.notices@.len() == 0
                &&& !r.hooked
            } else {
                let i = cmd.opts@[0]@;
                let o = cmd.opts@[1]@;
                let connecting = if cmd.cmd@ == "con"@ {
                    true
                } else if cmd.cmd@ == "dis"@ {
                    false
                } else {
                    !old(mixer).connections.spec_is_connected(o, i)
                };
                &&& forall|o2: Seq<char>, i2: Seq<char>|
                    #[trigger] final(mixer).connections.spec_is_connected(o2, i2) == if o2 == o
                        && i2 == i {
                        connecting
                    } else {
                        old(mixer).connections.spec_is_connected(o2, i2)
                    }
                &&& final(mixer).outputs == old(mixer).outputs
                &&& final(mixer).inputs == old(mixer).inputs
                &&& final(mixer).monitor == old(mixer).monitor
                &&& MixerConfig::spec_con_notices(
                    r.notices@,
                    old(mixer).spec_subs(HookKind::OutputCon, o),
                    old(mixer).spec_subs(HookKind::InputCon, i),
                    o,
                    i,
                    connecting,
                )
                &&& (if old(mixer).spec_port_exists(true, o) {
                    r.reply is Some && spec_info_reply(final(mixer), true, o, r.reply->Some_0)
                } else {
                    r.reply is Some && r.reply->Some_0.ret == 2
                })
                &&& !r.hooked
            }
        },
        cmd.cmd@ == "set"@ && cmd.opts@.len() >= 4 && spec_is_vol_word(cmd.opts@[0]@) ==> {
            let is_output = spec_get_ptype(cmd.opts@[1]@);
            let name = cmd.opts@[2]@;
            match spec_parse_fixed(cmd.opts@[3]@, VOL_MAX as int) {
                Some(v) => {
                    if v < 0 {
                        &&& spec_mixer_unchanged(old(mixer), final(mixer))
                        &&& r.reply is Some && r.reply->Some_0.ret == 1
                    } else if old(mixer).spec_port_exists(is_output, name) {
                        &&& final(mixer).spec_cfg(is_output, name) is Some
                        &&& final(mixer).spec_cfg(is_output, name)->Some_0.vol == v
                        &&& final(mixer).spec_cfg(is_output, name)->Some_0.balance == old(
                            mixer,
                        ).spec_cfg(is_output, name)->Some_0.balance
                        &&& MixerConfig::spec_info_notices(
                            r.notices@,
                            old(mixer).spec_subs(MixerConfig::vol_kind(is_output), name),
                            name,
                            v,
                            old(mixer).spec_cfg(is_output, name)->Some_0.balance as int,
                        )
                        &&& final(mixer).spec_subs(MixerConfig::vol_kind(is_output), name).len()
                            == 0
                        &&& r.reply is Some && spec_info_reply(
                            final(mixer),
                            is_output,
                            name,
                            r.reply->Some_0,
                        )
                    } else {
                        &&& spec_mixer_unchanged(old(mixer), final(mixer))
                        &&& r.reply is Some && r.reply->Some_0.ret == 2
                    }
                },
                None => {
                    &&& spec_mixer_unchanged(old(mixer), final(mixer))
                    &&& r.reply is Some && r.reply->Some_0.ret == 1
                },
            }
        },
        cmd.cmd@ == "set"@ && cmd.opts@.len() >= 4 && spec_is_bal_word(cmd.opts@[0]@) ==> {
            let is_output = spec_get_ptype(cmd.opts@[1]@);
            let name = cmd.opts@[2]@;
            match spec_parse_fixed(cmd.opts@[3]@, BAL_MAX as int) {
                Some(v) => {
                    if old(mixer).spec_port_exists(is_output, name) {
                        &&& final(mixer).spec_cfg(is_output, name) is Some
                        &&& final(mixer).spec_cfg(is_output, name)->Some_0.balance == v
                        &&& final(mixer).spec_cfg(is_output, name)->Some_0.vol == old(
                            mixer,
                        ).spec_cfg(is_output, name)->Some_0.vol
                        &&& MixerConfig::spec_info_notices(
                            r.notices@,
                            old(mixer).spec_subs(MixerConfig::bal_kind(is_output), name),
                            name,
                            old(mixer).spec_cfg(is_output, name)->Some_0.vol as int,
                            v,
                        )
                        &&& final(mixer).spec_subs(MixerConfig::bal_kind(is_output), name).len()
                            == 0
                        &&& r.reply is Some && spec_info_reply(
                            final(mixer),
                            is_output,
                            name,
                            r.reply->Some_0,
                        )
                    } else {
                        &&& spec_mixer_unchanged(old(mixer), final(mixer))
                        &&& r.reply is Some && r.reply->Some_0.ret == 2
                    }
                },
                None => {
                    &&& spec_mixer_unchanged(old(mixer), final(mixer))
                    &&& r.reply is Some && r.reply->Some_0.ret == 1
                },
            }
        },
        cmd.cmd@ == "set"@ && cmd.opts@.len() >= 3 && (cmd.opts@[0]@ == "monitor"@ || cmd.opts@[0]@
            == "mon"@ || cmd.opts@[0]@ == "m"@) ==> {
            let is_output = spec_get_ptype(cmd.opts@[1]@);
            let name = cmd.opts@[2]@;
            if old(mixer).spec_port_exists(is_output, name) {
                &&& final(mixer).monitor.channel@ == name
                &&& final(mixer).monitor.is_input == !is_output
                &&& final(mixer).connections == old(mixer).connections
                &&& final(mixer).outputs == old(mixer).outputs
                &&& final(mixer).inputs == old(mixer).inputs
                &&& r.reply is Some && spec_info_reply(
                    final(mixer),
                    is_output,
                    name,
                    r.reply->Some_0,
                )
            } else {
                &&& spec_mixer_unchanged(old(mixer), final(mixer))
                &&& r.reply is Some && r.reply->Some_0.ret == 2
            }
        },
        cmd.cmd@ == "mon"@ && cmd.opts@.len() >= 3 && (spec_is_vol_word(cmd.opts@[0]@)
            || spec_is_bal_word(cmd.opts@[0]@) || spec_is_con_word(cmd.opts@[0]@)) ==> {
            let is_output = spec_get_ptype(cmd.opts@[1]@);
            let name = cmd.opts@[2]@;
            let kind = if spec_is_vol_word(cmd.opts@[0]@) {
                MixerConfig::vol_kind(is_output)
            } else if spec_is_con_word(cmd.opts@[0]@) {
                if is_output {
                    HookKind::OutputCon
                } else {
                    HookKind::InputCon
                }
            } else {
                MixerConfig::bal_kind(is_output)
            };
            &&& r.hooked
            &&& r.reply is None
            &&& final(mixer).spec_subs(kind, name) == old(mixer).spec_subs(kind, name).push(sub)
            &&& final(mixer).connections == old(mixer).connections
            &&& final(mixer).outputs == old(mixer).outputs
            &&& final(mixer).inputs == old(mixer).inputs
        },
        cmd.cmd@ == "get"@ && cmd.opts@.len() >= 1 && (cmd.opts@[0]@ == "ports"@ || cmd.opts@[0]@
            == "channels"@) ==> {
            &&& spec_mixer_unchanged(old(mixer), final(mixer))
            &&& r.reply is Some && r.reply->Some_0.ret == 0 && r.reply->Some_0.obj is Channels
            &&& r.reply->Some_0.obj->Channels_inputs@.len() == old(mixer).inputs.spec_len()
            &&& r.reply->Some_0.obj->Channels_outputs@.len() == old(mixer).outputs.spec_len()
            &&& !r.hooked
        },
        cmd.cmd@ == "get"@ && cmd.opts@.len() >= 1 && (cmd.opts@[0]@ == "monitor"@ || cmd.opts@[0]@
            == "mon"@) ==> {
            &&& spec_mixer_unchanged(old(mixer), final(mixer))
            &&& r.reply is Some && spec_info_reply(
                final(mixer),
                !old(mixer).monitor.is_input,
                old(mixer).monitor.channel@,
                r.reply->Some_0,
            )
            &&& !r.hooked
        },
        cmd.cmd@ == "get"@ && cmd.opts@.len() >= 2 && !(cmd.opts@[0]@ == "ports"@ || cmd.opts@[0]@
            == "channels"@ || cmd.opts@[0]@ == "monitor"@ || cmd.opts@[0]@ == "mon"@) ==> {
            let is_output = spec_get_ptype(cmd.opts@[0]@);
            let name = cmd.opts@[1]@;
            &&& spec_mixer_unchanged(old(mixer), final(mixer))
            &&& (if old(mixer).spec_port_exists(is_output, name) {
                r.reply is Some && spec_info_reply(final(mixer), is_output, name, r.reply->Some_0)
            } else {
                r.reply is Some && r.reply->Some_0.ret == 2
            })
            &&& !r.hooked
        },
        !(cmd.cmd@ == "con"@ || cmd.cmd@ == "dis"@ || cmd.cmd@ == "tog"@ || cmd.cmd@ == "get"@
            || cmd.cmd@ == "mon"@ || cmd.cmd@ == "set"@) ==> {
            &&& spec_mixer_unchanged(old(mixer), final(mixer))
            &&& r.reply is Some && r.reply->Some_0.ret == 1
            &&& !r.hooked
        },
{
    proof {
        lemma_words_distinct();
    }
    let verb = &cmd.cmd;
    if crate::utils::str_eq(verb.as_str(), "con") || crate::utils::str_eq(verb.as_str(), "dis")
        || crate::utils::str_eq(verb.as_str(), "tog") {
        if cmd.opts.len() < 2 {
            return MixerDispatch {
                reply: Some(err_reply(1, "Bad command!")),
                notices: Vec::new(),
                hooked: false,
            };
        }
        let iname = &cmd.opts[0];
        let oname = &cmd.opts[1];
        let connecting = if crate::utils::str_eq(verb.as_str(), "con") {
            true
        } else if crate::utils::str_eq(verb.as_str(), "dis") {
            false
        } else {
            !mixer.is_connected(oname.as_str(), iname.as_str())
        };
        let notices = match mixer.connect(connecting, oname.as_str(), iname.as_str()) {
            Ok(n) => n,
            Err(()) => Vec::new(),
        };
        let reply = if mixer.port_exists(true, oname) {
            info_reply(mixer, true, oname)
        } else {
            err_reply(2, "Port not found!")
        };
        return MixerDispatch { reply: Some(reply), notices, hooked: false };
    }
    if crate::utils::str_eq(verb.as_str(), "get") {
        if cmd.opts.len() >= 1 && (crate::utils::str_eq(cmd.opts[0].as_str(), "ports")
            || crate::utils::str_eq(cmd.opts[0].as_str(), "channels")) {
            let inames = mixer.inputs.names();
            let mut infos_in: Vec<PortInfo> = Vec::new();
            let ni = inames.len();
            let mut j: usize = 0;
            while j < ni
                invariant
                    mixer.wf(),
                    ni == inames@.len(),
                    ni == mixer.inputs.spec_len(),
                    forall|m: int| 0 <= m < ni ==> (#[trigger] inames@[m]@) == mixer.inputs.name_at(
                        m,
                    ),
                    infos_in@.len() == j,
                    j <= ni,
                decreases ni - j,
            {
                proof {
                    mixer.inputs.lemma_name_at_contains(j as int);
                }
                match mixer.get_port_info(false, &inames[j]) {
                    Ok(info) => infos_in.push(info),
                    Err(()) => {
                        proof {
                            assert(false);
                        }
                    },
                }
                j = j + 1;
            }
            let onames = mixer.outputs.names();
            let mut infos_out: Vec<PortInfo> = Vec::new();
            let no = onames.len();
            let mut j: usize = 0;
            while j < no
                invariant
                    mixer.wf(),
                    no == onames@.len(),
                    no == mixer.outputs.spec_len(),
                    forall|m: int| 0 <= m < no ==> (#[trigger] onames@[m]@)
                        == mixer.outputs.name_at(m),
                    infos_out@.len() == j,
                    j <= no,
                decreases no - j,
            {
                proof {
                    mixer.outputs.lemma_name_at_contains(j as int);
                }
                match mixer.get_port_info(true, &onames[j]) {
                    Ok(info) => infos_out.push(info),
                    Err(()) => {
                        proof {
                            assert(false);
                        }
                    },
                }
                j = j + 1;
            }
            return MixerDispatch {
                reply: Some(
                    Response {
                        ret: 0,
                        msg: "channels".to_owned(),
                        obj: RespObj::Channels { inputs: infos_in, outputs: infos_out },
                    },
                ),
                notices: Vec::new(),
                hooked: false,
            };
        }
        if cmd.opts.len() >= 1 && (crate::utils::str_eq(cmd.opts[0].as_str(), "monitor")
            || crate::utils::str_eq(cmd.opts[0].as_str(), "mon")) {
            let is_output = !mixer.monitor.is_input;
            let name = mixer.monitor.channel.clone();
            let reply = info_reply(mixer, is_output, &name);
            return MixerDispatch { reply: Some(reply), notices: Vec::new(), hooked: false };
        }
        if cmd.opts.len() >= 2 {
            let is_output = get_ptype(&cmd.opts[0]);
            let name = &cmd.opts[1];
            let reply = if mixer.port_exists(is_output, name) {
                info_reply(mixer, is_output, name)
            } else {
                err_reply(2, "Port not found!")
            };
            return MixerDispatch { reply: Some(reply), notices: Vec::new(), hooked: false };
        }
        return MixerDispatch {
            reply: Some(err_reply(1, "Bad command!")),
            notices: Vec::new(),
            hooked: false,
        };
    }
    if crate::utils::str_eq(verb.as_str(), "mon") {
        if cmd.opts.len() >= 3 {
            let what = &cmd.opts[0];
            let vol = is_vol_word(what);
            let con = is_con_word(what);
            let bal = is_bal_word(what);
            if vol || con || bal {
                let is_output = get_ptype(&cmd.opts[1]);
                let kind = if vol {
                    if is_output {
                        HookKind::OutputVol
                    } else {
                        HookKind::InputVol
                    }
                } else if con {
                    if is_output {
                        HookKind::OutputCon
                    } else {
                        HookKind::InputCon
                    }
                } else {
                    if is_output {
                        HookKind::OutputBal
                    } else {
                        HookKind::InputBal
                    }
                };
                mixer.hook(kind, cmd.opts[2].clone(), sub);
                return MixerDispatch { reply: None, notices: Vec::new(), hooked: true };
            }
        }
        return MixerDispatch { reply: None, notices: Vec::new(), hooked: false };
    }
    if crate::utils::str_eq(verb.as_str(), "set") {
        if cmd.opts.len() >= 4 && is_vol_word(&cmd.opts[0]) {
            let is_output = get_ptype(&cmd.opts[1]);
            let name = &cmd.opts[2];
            match parse_fixed(cmd.opts[3].as_str(), VOL_MAX) {
                Some(v) => {
                    if v < 0 {
                        return MixerDispatch {
                            reply: Some(err_reply(1, "Bad value!")),
                            notices: Vec::new(),
                            hooked: false,
                        };
                    }
                    match mixer.set_vol(is_output, name, v) {
                        Ok(notices) => {
                            let reply = info_reply(mixer, is_output, name);
                            return MixerDispatch { reply: Some(reply), notices, hooked: false };
                        },
                        Err(()) => {
                            return MixerDispatch {
                                reply: Some(err_reply(2, "Port not found!")),
                                notices: Vec::new(),
                                hooked: false,
                            };
                        },
                    }
                },
                None => {
                    return MixerDispatch {
                        reply: Some(err_reply(1, "Bad value!")),
                        notices: Vec::new(),
                        hooked: false,
                    };
                },
            }
        }
        if cmd.opts.len() >= 4 && is_bal_word(&cmd.opts[0]) {
            let is_output = get_ptype(&cmd.opts[1]);
            let name = &cmd.opts[2];
            match parse_fixed(cmd.opts[3].as_str(), BAL_MAX) {
                Some(v) => {
                    match mixer.set_bal(is_output, name, v) {
                        Ok(notices) => {
                            let reply = info_reply(mixer, is_output, name);
                            return MixerDispatch { reply: Some(reply), notices, hooked: false };
                        },
                        Err(()) => {
                            return MixerDispatch {
                                reply: Some(err_reply(2, "Port not found!")),
                                notices: Vec::new(),
                                hooked: false,
                            };
                        },
                    }
                },
                None => {
                    return MixerDispatch {
                        reply: Some(err_reply(1, "Bad value!")),
                        notices: Vec::new(),
                        hooked: false,
                    };
                },
            }
        }
        if cmd.opts.len() >= 3 && (crate::utils::str_eq(cmd.opts[0].as_str(), "monitor")
            || crate::utils::str_eq(cmd.opts[0].as_str(), "mon") || crate::utils::str_eq(
            cmd.opts[0].as_str(),
            "m",
        )) {
            let is_output = get_ptype(&cmd.opts[1]);
            let name = &cmd.opts[2];
            match mixer.set_mon(is_output, name) {
                Ok(()) => {
                    let reply = info_reply(mixer, is_output, name);
                    return MixerDispatch { reply: Some(reply), notices: Vec::new(), hooked: false };
                },
                Err(()) => {
                    return MixerDispatch {
                        reply: Some(err_reply(2, "Port not found!")),
                        notices: Vec::new(),
                        hooked: false,
                    };
                },
            }
        }
        return MixerDispatch { reply: None, notices: Vec::new(), hooked: false };
    }
    MixerDispatch {
        reply: Some(err_reply(1, "Bad command!")),
        notices: Vec::new(),
        hooked: false,
    }
}

/// What the connection dispatcher decided: a reply, and a signal for the
/// reconciler's queue.
pub struct ConDispatch {
    pub reply: Option<Response>,
    pub signal: Option<Signals>,
}

/// Handle one transport-targeted request: the wiring verbs mutate the desired
/// transport graph (keyed by the request's first name) and ask the
/// reconciler to carry the change out.
pub fn dispatch_connection(cfg: &mut Config, cmd: &Command) -> (r: ConDispatch)
    requires
        old(cfg).wf(),
    ensures
        final(cfg).wf(),
        final(cfg).mixer == old(cfg).mixer,
        cmd.cmd@ == "con"@ || cmd.cmd@ == "dis"@ || cmd.cmd@ == "tog"@ ==> {
            if cmd.opts@.len() < 2 {
                &&& final(cfg).connections == old(cfg).connections
                &&& r.reply is Some && r.reply->Some_0.ret == 1
                &&& r.signal is None
            } else {
                let a = cmd.opts@[0]@;
                let bb = cmd.opts@[1]@;
                let connecting = if cmd.cmd@ == "con"@ {
                    true
                } else if cmd.cmd@ == "dis"@ {
                    false
                } else {
                    !old(cfg).connections.spec_is_connected(a, bb)
                };
                &&& forall|o2: Seq<char>, i2: Seq<char>|
                    #[trigger] final(cfg).connections.spec_is_connected(o2, i2) == if o2 == a && i2
                        == bb {
                        connecting
                    } else {
                        old(cfg).connections.spec_is_connected(o2, i2)
                    }
                &&& r.signal is Some && r.signal->Some_0 is TryConnection
                    && r.signal->Some_0->TryConnection_0 == connecting
                    && r.signal->Some_0->TryConnection_1@ == a
                    && r.signal->Some_0->TryConnection_2@ == bb
                &&& r.reply is Some && r.reply->Some_0.ret == 0 && r.reply->Some_0.obj
                    is Connection && r.reply->Some_0.obj->Connection_output_name@ == bb
                    && r.reply->Some_0.obj->Connection_input_name@ == a
            }
        },
        !(cmd.cmd@ == "con"@ || cmd.cmd@ == "dis"@ || cmd.cmd@ == "tog"@) ==> {
            &&& final(cfg).connections == old(cfg).connections
            &&& r.reply is Some && r.reply->Some_0.ret == 1
            &&& r.signal is None
        },
{
    let verb = &cmd.cmd;
    if crate::utils::str_eq(verb.as_str(), "con") || crate::utils::str_eq(verb.as_str(), "dis")
        || crate::utils::str_eq(verb.as_str(), "tog") {
        if cmd.opts.len() < 2 {
            return ConDispatch { reply: Some(err_reply(1, "Bad command!")), signal: None };
        }
        let iname = cmd.opts[0].clone();
        let oname = cmd.opts[1].clone();
        let connecting = if crate::utils::str_eq(verb.as_str(), "con") {
            true
        } else if crate::utils::str_eq(verb.as_str(), "dis") {
            false
        } else {
            !Connections::is_connected(&cfg.connections, iname.as_str(), oname.as_str())
        };
        Connections::connect(&mut cfg.connections, connecting, iname.as_str(), oname.as_str());
        proof {
            assert forall|o2: Seq<char>, i2: Seq<char>|
                #[trigger] cfg.connections.spec_is_connected(o2, i2) == (if o2 == cmd.opts@[0]@
                    && i2 == cmd.opts@[1]@ {
                    connecting
                } else {
                    old(cfg).connections.spec_is_connected(o2, i2)
                }) by {
                assert(Connections::connected(&cfg.connections, o2, i2)
                    == cfg.connections.spec_is_connected(o2, i2));
                assert(Connections::connected(&old(cfg).connections, o2, i2)
                    == old(cfg).connections.spec_is_connected(o2, i2));
            }
        }
        let msg = if connecting {
            "connection"
        } else {
            "disconnection"
        };
        let reply = Response {
            ret: 0,
            msg: msg.to_owned(),
            obj: RespObj::Connection { output_name: oname.clone(), input_name: iname.clone() },
        };
        return ConDispatch {
            reply: Some(reply),
            signal: Some(Signals::TryConnection(connecting, iname, oname)),
        };
    }
    ConDispatch { reply: Some(err_reply(1, "Bad command!")), signal: None }
}

} // verus!
