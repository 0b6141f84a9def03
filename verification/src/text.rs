//! Verified text building: decimal rendering of indices and integers,
//! dotted rendering of paths, and the text a logged value turns into.

use vstd::prelude::*;
use crate::value::{Value, ObjectMap, ValModel, MapModel};
use crate::value::lemma_entries_model;
use crate::path::Path;

verus! {

/// The character for one decimal digit.
pub open spec fn digit_char(d: nat) -> char {
    if d == 0 {
        '0'
    } else if d == 1 {
        '1'
    } else if d == 2 {
        '2'
    } else if d == 3 {
        '3'
    } else if d == 4 {
        '4'
    } else if d == 5 {
        '5'
    } else if d == 6 {
        '6'
    } else if d == 7 {
        '7'
    } else if d == 8 {
        '8'
    } else {
        '9'
    }
}

/// Decimal digits of `n`, most significant first.
pub open spec fn dec_digits(n: nat) -> Seq<char>
    decreases n,
{
    if n < 10 {
        seq![digit_char(n)]
    } else {
        dec_digits(n / 10).push(digit_char(n % 10))
    }
}

/// Decimal rendering of a signed integer, with a leading minus sign when
/// negative.
pub open spec fn int_digits(i: int) -> Seq<char> {
    if i < 0 {
        seq!['-'] + dec_digits((-i) as nat)
    } else {
        dec_digits(i as nat)
    }
}

/// The one-character string for a decimal digit.
fn digit_str(d: u64) -> (r: &'static str)
    requires
        d < 10,
    ensures
        r@ == seq![digit_char(d as nat)],
{
    proof {
        reveal_strlit("0");
        reveal_strlit("1");
        reveal_strlit("2");
        reveal_strlit("3");
        reveal_strlit("4");
        reveal_strlit("5");
        reveal_strlit("6");
        reveal_strlit("7");
        reveal_strlit("8");
        reveal_strlit("9");
    }
    let r: &'static str = if d == 0 {
        "0"
    } else if d == 1 {
        "1"
    } else if d == 2 {
        "2"
    } else if d == 3 {
        "3"
    } else if d == 4 {
        "4"
    } else if d == 5 {
        "5"
    } else if d == 6 {
        "6"
    } else if d == 7 {
        "7"
    } else if d == 8 {
        "8"
    } else {
        "9"
    };
    proof {
        assert(r@ =~= seq![digit_char(d as nat)]);
    }
    r
}

/// Decimal rendering of an unsigned number.
pub fn u64_to_string(n: u64) -> (r: String)
    ensures
        r@ == dec_digits(n as nat),
    decreases n,
{
    if n < 10 {
        let r = digit_str(n).to_owned();
        r
    } else {
        let mut r = u64_to_string(n / 10);
        r.append(digit_str(n % 10));
        proof {
            assert(r@ =~= dec_digits(n as nat));
        }
        r
    }
}

/// Decimal rendering of a signed number.
pub fn i64_to_string(i: i64) -> (r: String)
    ensures
        r@ == int_digits(i as int),
{
    if i >= 0 {
        u64_to_string(i as u64)
    } else {
        let magnitude: u64 = ((-(i + 1)) as u64) + 1;
        proof {
            assert(magnitude == (-(i as int)) as nat);
        }
        let mut r = "-".to_owned();
        let digits = u64_to_string(magnitude);
        r.append(digits.as_str());
        proof {
            reveal_strlit("-");
            assert("-"@ =~= seq!['-']);
        }
        r
    }
}

/// Dotted rendering of a path: its segments joined by `.`.
pub open spec fn path_text(p: Seq<Seq<char>>) -> Seq<char>
    decreases p.len(),
{
    if p.len() == 0 {
        Seq::empty()
    } else if p.len() == 1 {
        p[0]
    } else {
        p[0] + seq!['.'] + path_text(p.drop_first())
    }
}

impl Path {
    /// Dotted rendering of this path.
    pub fn render(&self) -> (r: String)
        ensures
            r@ == path_text(self@),
    {
        let mut r = String::new();
        let n = self.segments.len();
        let mut i: usize = 0;
        while i < n
            invariant
                i <= n,
                n == self.segments@.len(),
                self@.len() == n,
                forall|j: int| 0 <= j < n ==> self@[j] == self.segments@[j]@,
                r@ == path_text(self@.take(i as int)),
            decreases n - i,
        {
            if i > 0 {
                r.append(".");
                proof {
                    reveal_strlit(".");
                    assert("."@ =~= seq!['.']);
                }
            }
            r.append(self.segments[i].as_str());
            proof {
                lemma_path_text_push(self@.take(i as int), self@[i as int]);
                assert(self@.take(i + 1) =~= self@.take(i as int).push(self@[i as int]));
            }
            i += 1;
        }
        proof {
            assert(self@.take(n as int) =~= self@);
        }
        r
    }
}

/// Appending one more segment appends a dot (after the first) and the
/// segment.
proof fn lemma_path_text_push(p: Seq<Seq<char>>, s: Seq<char>)
    ensures
        path_text(p.push(s)) == if p.len() == 0 {
            s
        } else {
            path_text(p) + seq!['.'] + s
        },
    decreases p.len(),
{
    if p.len() == 0 {
        assert(p.push(s)[0] == s);
        assert(path_text(p.push(s)) == s);
    } else if p.len() == 1 {
        assert(p.push(s)[0] == p[0]);
        assert(p.push(s).drop_first() =~= seq![s]);
        assert(seq![s][0] == s);
        assert(path_text(seq![s]) == s);
        assert(path_text(p.push(s)) =~= p[0] + seq!['.'] + s);
    } else {
        assert(p.push(s)[0] == p[0]);
        assert(p.push(s).drop_first() =~= p.drop_first().push(s));
        lemma_path_text_push(p.drop_first(), s);
        assert(path_text(p.push(s)) =~= path_text(p) + seq!['.'] + s);
    }
}

/// What `String::from_utf8_lossy` decodes the bytes to; a function of
/// the bytes alone.
pub uninterp spec fn utf8_lossy(b: Seq<u8>) -> Seq<char>;

/// Relies on `String::from_utf8_lossy`: decodes the bytes as UTF-8,
/// substituting the replacement character for invalid sequences; the
/// result depends on the bytes alone, and no bytes give no text.
#[verifier::external_body]
pub fn from_utf8_lossy(b: &Vec<u8>) -> (r: String)
    ensures
        r@ == utf8_lossy(b@),
        b@.len() == 0 ==> r@.len() == 0,
{
    String::from_utf8_lossy(b.as_slice()).into_owned()
}

/// The text a logged value is rendered to: bytes are decoded as UTF-8
/// with replacement, booleans and integers are spelled out, and maps are
/// braced lists of `key: value` pairs in entry order.
pub open spec fn log_text(v: ValModel) -> Seq<char>
    decreases v,
{
    match v {
        ValModel::Bytes(b) => utf8_lossy(b),
        ValModel::Integer(i) => int_digits(i),
        ValModel::Boolean(b) => if b {
            "true"@
        } else {
            "false"@
        },
        ValModel::Object(m) => seq!['{'] + log_text_entries(m) + seq!['}'],
    }
}

/// The entries of a logged map, `key: value` joined by `, `.
pub open spec fn log_text_entries(m: MapModel) -> Seq<char>
    decreases m,
{
    if m.len() == 0 {
        Seq::empty()
    } else if m.len() == 1 {
        m[0].0 + seq![':', ' '] + log_text(m[0].1)
    } else {
        m[0].0 + seq![':', ' '] + log_text(m[0].1) + seq![',', ' '] + log_text_entries(
            m.drop_first(),
        )
    }
}

impl Value {
    /// Render this value to the text a log line carries.
    pub fn render_log_text(&self) -> (r: String)
        ensures
            r@ == log_text(self@),
        decreases self,
    {
        match self {
            Value::Bytes(b) => from_utf8_lossy(b),
            Value::Integer(i) => i64_to_string(*i),
            Value::Boolean(b) => {
                if *b {
                    "true".to_owned()
                } else {
                    "false".to_owned()
                }
            },
            Value::Object(m) => {
                let mut r = "{".to_owned();
                let inner = render_log_entries(m);
                r.append(inner.as_str());
                r.append("}");
                proof {
                    reveal_strlit("{");
                    reveal_strlit("}");
                    assert("{"@ =~= seq!['{']);
                    assert("}"@ =~= seq!['}']);
                }
                r
            },
        }
    }
}

/// Render the entries of a logged map.
fn render_log_entries(m: &ObjectMap) -> (r: String)
    ensures
        r@ == log_text_entries(m@),
    decreases m,
{
    proof {
        lemma_entries_model(m.entries@);
    }
    let mut r = String::new();
    let n = m.entries.len();
    let mut i: usize = 0;
    while i < n
        invariant
            i <= n,
            n == m.entries@.len(),
            m@.len() == n,
            forall|j: int| 0 <= j < n ==> m@[j] == (m.entries@[j].0@, m.entries@[j].1@),
            r@ == log_text_entries(m@.take(i as int)),
        decreases n - i,
    {
        if i > 0 {
            r.append(", ");
            proof {
                reveal_strlit(", ");
                assert(", "@ =~= seq![',', ' ']);
            }
        }
        let entry = &m.entries[i];
        r.append(entry.0.as_str());
        r.append(": ");
        proof {
            reveal_strlit(": ");
            assert(": "@ =~= seq![':', ' ']);
        }
        let text = entry.1.render_log_text();
        r.append(text.as_str());
        proof {
            lemma_log_text_entries_push(m@.take(i as int), m@[i as int]);
            assert(m@.take(i + 1) =~= m@.take(i as int).push(m@[i as int]));
        }
        i += 1;
    }
    proof {
        assert(m@.take(n as int) =~= m@);
    }
    r
}

/// Appending one more entry appends `, ` (after the first) and the
/// entry's text.
proof fn lemma_log_text_entries_push(m: MapModel, x: (Seq<char>, ValModel))
    ensures
        log_text_entries(m.push(x)) == if m.len() == 0 {
            x.0 + seq![':', ' '] + log_text(x.1)
        } else {
            log_text_entries(m) + seq![',', ' '] + (x.0 + seq![':', ' '] + log_text(x.1))
        },
    decreases m.len(),
{
    if m.len() == 0 {
        assert(m.push(x)[0] == x);
        assert(log_text_entries(m.push(x)) == x.0 + seq![':', ' '] + log_text(x.1));
    } else if m.len() == 1 {
        assert(m.push(x)[0] == m[0]);
        assert(m.push(x).drop_first() =~= seq![x]);
        assert(seq![x][0] == x);
        assert(log_text_entries(seq![x]) == x.0 + seq![':', ' '] + log_text(x.1));
        assert(log_text_entries(m.push(x)) =~= log_text_entries(m) + seq![',', ' '] + (x.0 + seq![
            ':',
            ' ',
        ] + log_text(x.1)));
    } else {
        assert(m.push(x)[0] == m[0]);
        assert(m.push(x).drop_first() =~= m.drop_first().push(x));
        lemma_log_text_entries_push(m.drop_first(), x);
        assert(log_text_entries(m.push(x)) =~= log_text_entries(m) + seq![',', ' '] + (x.0 + seq![
            ':',
            ' ',
        ] + log_text(x.1)));
    }
}

} // verus!
