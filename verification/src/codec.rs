//! A textual codec for a two-field point record. The encoding is object
//! notation with the two fields in declared order and unquoted integer
//! values, as in {"x":1,"y":2}. The decoder accepts exactly the canonical
//! encodings and provably inverts the encoder.
use crate::digits::dec_digits;
use crate::digits::dec_int;
use crate::digits::digit_val;
use crate::digits::i32_to_decimal;
use crate::digits::is_digit;
use crate::digits::lemma_dec_digits;
use crate::digits::lemma_val_prefix;
use crate::digits::val_of;
use vstd::prelude::*;
use vstd::string::StrSliceExecFns;
use vstd::string::StringExecFns;

verus! {

/// A point record with two signed 32-bit coordinates.
#[derive(Clone, Copy, PartialEq, Eq, Structural, Debug)]
pub struct Point {
    pub x: i32,
    pub y: i32,
}

/// The canonical textual encoding of a point: an object with the two fields
/// in declared order and unquoted integer values.
pub open spec fn point_text(p: Point) -> Seq<char> {
    seq!['{', '"', 'x', '"', ':'] + dec_int(p.x as int) + seq![',', '"', 'y', '"', ':'] + dec_int(
        p.y as int,
    ) + seq!['}']
}

/// Length of the sign part of the canonical decimal text of `v`.
pub open spec fn sign_len(v: i32) -> int {
    if v < 0 {
        1
    } else {
        0
    }
}

/// Magnitude of `v` as a natural number.
pub open spec fn mag_of(v: i32) -> nat {
    if v < 0 {
        (-(v as int)) as nat
    } else {
        v as nat
    }
}

/// The canonical decimal text of `v` sits at `start` in `cs` and is not
/// followed by a further digit.
pub open spec fn reads_int_at(cs: Seq<char>, start: int, v: i32) -> bool {
    let d = dec_int(v as int);
    &&& 0 <= start
    &&& start + d.len() <= cs.len()
    &&& cs.subrange(start, start + d.len()) == d
    &&& (start + d.len() == cs.len() || !is_digit(cs[start + d.len()]))
}

/// Unpacks `reads_int_at` into facts about the underlying digit run: where it
/// lies, that it consists of digits, its value, and what follows it.
proof fn lemma_reads_run(cs: Seq<char>, start: int, v: i32)
    requires
        reads_int_at(cs, start, v),
    ensures
        dec_digits(mag_of(v)).len() >= 1,
        val_of(dec_digits(mag_of(v))) == mag_of(v),
        mag_of(v) <= 2147483648,
        dec_int(v as int).len() == sign_len(v) + dec_digits(mag_of(v)).len(),
        v < 0 ==> cs[start] == '-',
        v >= 0 ==> is_digit(cs[start]),
        start + sign_len(v) + dec_digits(mag_of(v)).len() <= cs.len(),
        cs.subrange(start + sign_len(v), start + sign_len(v) + dec_digits(mag_of(v)).len())
            == dec_digits(mag_of(v)),
        forall|j: int|
            start + sign_len(v) <= j < start + sign_len(v) + dec_digits(mag_of(v)).len()
                ==> is_digit(#[trigger] cs[j]),
        start + sign_len(v) + dec_digits(mag_of(v)).len() == cs.len() || !is_digit(
            cs[start + sign_len(v) + dec_digits(mag_of(v)).len()],
        ),
{
    let dv = dec_int(v as int);
    let dd = dec_digits(mag_of(v));
    lemma_dec_digits(mag_of(v));
    let sub = cs.subrange(start, start + dv.len());
    assert forall|m: int| 0 <= m < dv.len() implies cs[start + m] == dv[m] by {
        assert(sub[m] == cs[start + m]);
    }
    if v < 0 {
        assert(dv == seq!['-'] + dd);
        assert(dv[0] == '-');
        assert forall|k: int| 0 <= k < dd.len() implies cs[start + 1 + k] == dd[k] by {
            assert(dv[1 + k] == dd[k]);
            assert(cs[start + (1 + k)] == dv[1 + k]);
        }
        assert(cs.subrange(start + 1, start + 1 + dd.len()) =~= dd);
    } else {
        assert(dv == dd);
        assert(cs.subrange(start, start + dd.len()) =~= dd);
        assert(cs[start] == dd[0]);
    }
    let sgn = sign_len(v);
    assert forall|j: int| start + sgn <= j < start + sgn + dd.len() implies is_digit(
        #[trigger] cs[j],
    ) by {
        let k = j - (start + sgn);
        assert(cs.subrange(start + sgn, start + sgn + dd.len())[k] == cs[j]);
        assert(is_digit(dd[k]));
    }
}

/// Two digit runs that begin at the same place and each end at the string's
/// end or at a non-digit end at the same place.
proof fn lemma_run_end(cs: Seq<char>, lo: int, e1: int, e2: int)
    requires
        lo <= e1 <= cs.len(),
        lo <= e2 <= cs.len(),
        forall|j: int| lo <= j < e1 ==> is_digit(#[trigger] cs[j]),
        forall|j: int| lo <= j < e2 ==> is_digit(#[trigger] cs[j]),
        e1 == cs.len() || !is_digit(cs[e1]),
        e2 == cs.len() || !is_digit(cs[e2]),
    ensures
        e1 == e2,
{
    if e1 < e2 {
        assert(is_digit(cs[e1]));
    }
    if e2 < e1 {
        assert(is_digit(cs[e2]));
    }
}

/// At one position, at most one value can be read: the canonical decimal
/// text there determines it.
proof fn lemma_reads_unique(cs: Seq<char>, start: int, v1: i32, v2: i32)
    requires
        reads_int_at(cs, start, v1),
        reads_int_at(cs, start, v2),
    ensures
        v1 == v2,
{
    lemma_reads_run(cs, start, v1);
    lemma_reads_run(cs, start, v2);
    if v1 < 0 && v2 >= 0 {
        assert(is_digit('-'));
    }
    if v2 < 0 && v1 >= 0 {
        assert(is_digit('-'));
    }
    let sgn = sign_len(v1);
    let d1 = dec_digits(mag_of(v1));
    let d2 = dec_digits(mag_of(v2));
    lemma_run_end(cs, start + sgn, start + sgn + d1.len(), start + sgn + d2.len());
    assert(d1 =~= d2);
}

/// Where each piece of the canonical point text lies: the five-character
/// prefix, the x value, the five-character separator, the y value, and the
/// closing brace.
proof fn lemma_point_reads(p: Point)
    ensures
        point_text(p).len() == 5 + dec_int(p.x as int).len() + 5 + dec_int(p.y as int).len() + 1,
        dec_int(p.x as int).len() >= 1,
        dec_int(p.y as int).len() >= 1,
        reads_int_at(point_text(p), 5, p.x),
        reads_int_at(point_text(p), 5 + dec_int(p.x as int).len() as int + 5, p.y),
{
    let cs = point_text(p);
    let dx = dec_int(p.x as int);
    let dy = dec_int(p.y as int);
    lemma_dec_digits(mag_of(p.x));
    lemma_dec_digits(mag_of(p.y));
    if p.x < 0 {
        assert(dx == seq!['-'] + dec_digits(mag_of(p.x)));
    } else {
        assert(dx == dec_digits(mag_of(p.x)));
    }
    if p.y < 0 {
        assert(dy == seq!['-'] + dec_digits(mag_of(p.y)));
    } else {
        assert(dy == dec_digits(mag_of(p.y)));
    }
    let y0: int = 5 + dx.len() as int + 5;
    assert(cs.subrange(5, 5 + dx.len() as int) =~= dx);
    assert(cs[5 + dx.len() as int] == ',');
    assert(!is_digit(','));
    assert(cs.subrange(y0, y0 + dy.len() as int) =~= dy);
    assert(cs[y0 + dy.len() as int] == '}');
    assert(!is_digit('}'));
}

/// The canonical encoding determines the point: two points with the same
/// encoded text are the same point. Together with the contracts of
/// `encode_point` and `decode_point` this is the round-trip identity:
/// decoding the encoding of any point, whatever its two coordinates, yields
/// that point back.
pub proof fn lemma_point_text_injective(p: Point, q: Point)
    requires
        point_text(p) == point_text(q),
    ensures
        p == q,
{
    lemma_point_reads(p);
    lemma_point_reads(q);
    lemma_reads_unique(point_text(p), 5, p.x, q.x);
    lemma_reads_unique(point_text(p), 5 + dec_int(p.x as int).len() as int + 5, p.y, q.y);
}

/// Digit value of a character, when it is a decimal digit.
fn char_digit(c: char) -> (r: Option<u64>)
    ensures
        r is Some <==> is_digit(c),
        r matches Some(d) ==> d < 10 && d as nat == digit_val(c),
{
    match c {
        '0' => Some(0),
        '1' => Some(1),
        '2' => Some(2),
        '3' => Some(3),
        '4' => Some(4),
        '5' => Some(5),
        '6' => Some(6),
        '7' => Some(7),
        '8' => Some(8),
        '9' => Some(9),
        _ => None,
    }
}

/// Reads a signed decimal number at `start`: an optional '-', then a maximal
/// run of digits. Whenever the canonical text of some value sits at `start`
/// with no further digit after it, exactly that value and the position after
/// its text are returned.
fn parse_i32_at(s: &str, start: usize) -> (r: Option<(i32, usize)>)
    requires
        start <= s@.len(),
    ensures
        r matches Some(pr) ==> start < pr.1 <= s@.len(),
        forall|v: i32|
            reads_int_at(s@, start as int, v) ==> (r matches Some(pr) && pr.0 == v && pr.1 as int
                == start + dec_int(v as int).len()),
{
    let n = s.unicode_len();
    let neg = if start < n {
        s.get_char(start) == '-'
    } else {
        false
    };
    let numstart = if neg {
        start + 1
    } else {
        start
    };
    let mut i = numstart;
    let mut acc: u64 = 0;
    proof {
        assert(s@.subrange(numstart as int, numstart as int) =~= Seq::<char>::empty());
    }
    loop
        invariant
            n == s@.len(),
            start <= numstart <= n,
            numstart <= i <= n,
            neg <==> (start < n && s@[start as int] == '-'),
            numstart == if neg {
                start + 1
            } else {
                start as int
            },
            forall|j: int| numstart <= j < i ==> is_digit(#[trigger] s@[j]),
            acc as nat == val_of(s@.subrange(numstart as int, i as int)),
            acc <= 2147483648,
        ensures
            n == s@.len(),
            start <= numstart <= n,
            numstart <= i <= n,
            neg <==> (start < n && s@[start as int] == '-'),
            numstart == if neg {
                start + 1
            } else {
                start as int
            },
            i == n || !is_digit(s@[i as int]),
            forall|j: int| numstart <= j < i ==> is_digit(#[trigger] s@[j]),
            acc as nat == val_of(s@.subrange(numstart as int, i as int)),
            acc <= 2147483648,
        decreases n - i,
    {
        if i >= n {
            break ;
        }
        let c = s.get_char(i);
        match char_digit(c) {
            None => {
                break ;
            },
            Some(d) => {
                let ghost pre = s@.subrange(numstart as int, i as int);
                acc = acc * 10 + d;
                proof {
                    assert(s@.subrange(numstart as int, i as int + 1).drop_last() =~= pre);
                    assert(s@.subrange(numstart as int, i as int + 1).last() == s@[i as int]);
                }
                if acc > 2147483648 {
                    proof {
                        assert forall|v: i32| !reads_int_at(s@, start as int, v) by {
                            if reads_int_at(s@, start as int, v) {
                                lemma_reads_run(s@, start as int, v);
                                let dd = dec_digits(mag_of(v));
                                let lo = start + sign_len(v);
                                assert(lo == numstart);
                                let q = lo + dd.len();
                                if q <= i {
                                    assert(is_digit(s@[q]));
                                }
                                assert(i as int + 1 <= q);
                                assert forall|k: int|
                                    #![trigger dd.take(i as int + 1 - numstart)[k]]
                                    0 <= k < i as int + 1 - numstart implies s@.subrange(
                                    numstart as int,
                                    i as int + 1,
                                )[k] == dd.take(i as int + 1 - numstart)[k] by {
                                    assert(s@.subrange(lo, q)[k] == s@[lo + k]);
                                    assert(s@.subrange(numstart as int, i as int + 1)[k] == s@[numstart + k]);
                                }
                                assert(s@.subrange(numstart as int, i as int + 1) =~= dd.take(
                                    i as int + 1 - numstart,
                                ));
                                lemma_val_prefix(dd, i as int + 1 - numstart);
                                assert(val_of(dd) <= 2147483648);
                                assert(false);
                            }
                        }
                    }
                    return None;
                }
                i = i + 1;
            },
        }
    }
    if i == numstart {
        proof {
            assert forall|v: i32| !reads_int_at(s@, start as int, v) by {
                if reads_int_at(s@, start as int, v) {
                    lemma_reads_run(s@, start as int, v);
                    let dd = dec_digits(mag_of(v));
                    let lo = start + sign_len(v);
                    assert(lo == numstart);
                    assert(numstart < n);
                    assert(is_digit(s@[numstart as int]));
                }
            }
        }
        return None;
    }
    proof {
        assert forall|v: i32| reads_int_at(s@, start as int, v) implies i as int == start
            + sign_len(v) + dec_digits(mag_of(v)).len() && acc as nat == mag_of(v) by {
            lemma_reads_run(s@, start as int, v);
            let dd = dec_digits(mag_of(v));
            let lo = start + sign_len(v);
            assert(lo == numstart);
            lemma_run_end(s@, lo, i as int, lo + dd.len());
            assert forall|k: int| 0 <= k < i as int - numstart implies s@.subrange(
                numstart as int,
                i as int,
            )[k] == dd[k] by {
                assert(s@.subrange(lo, lo + dd.len())[k] == s@[lo + k]);
                assert(s@.subrange(numstart as int, i as int)[k] == s@[numstart + k]);
            }
            assert(s@.subrange(numstart as int, i as int) =~= dd);
        }
    }
    if neg {
        let vr = (-(acc as i64)) as i32;
        proof {
            assert forall|v: i32| reads_int_at(s@, start as int, v) implies vr == v && i as int
                == start + dec_int(v as int).len() by {
                lemma_reads_run(s@, start as int, v);
                if v >= 0 {
                    assert(is_digit(s@[start as int]));
                    assert(is_digit('-'));
                }
                assert(acc as nat == mag_of(v));
            }
        }
        Some((vr, i))
    } else {
        if acc > 2147483647 {
            proof {
                assert forall|v: i32| !reads_int_at(s@, start as int, v) by {
                    if reads_int_at(s@, start as int, v) {
                        lemma_reads_run(s@, start as int, v);
                        if v < 0 {
                            assert(s@[start as int] == '-');
                        }
                        assert(mag_of(v) <= 2147483647);
                    }
                }
            }
            return None;
        }
        let vr = acc as i32;
        proof {
            assert forall|v: i32| reads_int_at(s@, start as int, v) implies vr == v && i as int
                == start + dec_int(v as int).len() by {
                lemma_reads_run(s@, start as int, v);
                if v < 0 {
                    assert(s@[start as int] == '-');
                }
                assert(acc as nat == mag_of(v));
            }
        }
        Some((vr, i))
    }
}

/// Encodes a point as its canonical text, as in {"x":1,"y":2}.
pub fn encode_point(p: &Point) -> (r: String)
    ensures
        r@ == point_text(*p),
{
    proof {
        reveal_strlit("{\"x\":");
        reveal_strlit(",\"y\":");
        reveal_strlit("}");
    }
    let mut r = "{\"x\":".to_owned();
    let xs = i32_to_decimal(p.x);
    r.append(xs.as_str());
    r.append(",\"y\":");
    let ys = i32_to_decimal(p.y);
    r.append(ys.as_str());
    r.append("}");
    proof {
        assert(r@ =~= point_text(*p));
    }
    r
}

/// Decodes the canonical text of a point. Exactly the strings that
/// `encode_point` can produce are accepted; any other input yields `None`.
pub fn decode_point(s: &str) -> (r: Option<Point>)
    ensures
        r matches Some(p) ==> s@ == point_text(p),
        forall|p: Point| s@ == point_text(p) ==> r == Some(p),
{
    let n = s.unicode_len();
    if n < 5 {
        proof {
            assert forall|p: Point| s@ != point_text(p) by {
                lemma_point_reads(p);
            }
        }
        return None;
    }
    let rx = parse_i32_at(s, 5);
    let (x, xe) = match rx {
        Some(pr) => pr,
        None => {
            proof {
                assert forall|p: Point| s@ != point_text(p) by {
                    lemma_point_reads(p);
                }
            }
            return None;
        },
    };
    if xe > n - 5 {
        proof {
            assert forall|p: Point| s@ != point_text(p) by {
                lemma_point_reads(p);
            }
        }
        return None;
    }
    let ry = parse_i32_at(s, xe + 5);
    let y = match ry {
        Some(pr) => pr.0,
        None => {
            proof {
                assert forall|p: Point| s@ != point_text(p) by {
                    lemma_point_reads(p);
                }
            }
            return None;
        },
    };
    let cand = Point { x, y };
    let enc = encode_point(&cand);
    let own = s.to_owned();
    let same = enc.eq(&own);
    if same {
        proof {
            assert forall|p: Point| s@ == point_text(p) implies Some(cand) == Some::<Point>(p) by {
                lemma_point_text_injective(cand, p);
            }
        }
        Some(cand)
    } else {
        proof {
            assert forall|p: Point| s@ != point_text(p) by {
                if s@ == point_text(p) {
                    lemma_point_reads(p);
                    assert(cand == p);
                }
            }
        }
        None
    }
}

} // verus!
