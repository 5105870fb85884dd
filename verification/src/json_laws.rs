//! Reading gives back what was written: strings, numbers, whole values.

use vstd::prelude::*;

use crate::json::{
    at, escape_all, escape_char, escape_code, escape_end, escape_json, hex_char, hex_number,
    hex_value, number_end, print_items, print_json, print_member, print_members, read_chars,
    read_items, read_json, read_members, read_string, read_value, simple_escape, skip_digits,
    skip_exponent, skip_white, Json,
};
use crate::num::number;
use crate::text::{is_digit, is_white, occurs_at};

verus! {

proof fn lemma_hex_pair(c: char)
    requires
        (c as u32) < 0x20,
    ensures
        escape_code(
            seq!['0', '0', hex_char((c as u32 / 16) as int), hex_char((c as u32 % 16) as int)],
        ) == Some(c as int),
        (c as int) as char == c,
{
    let h = hex_char((c as u32 / 16) as int);
    let l = hex_char((c as u32 % 16) as int);
    let s = seq!['0', '0', h, l];
    assert(hex_value(h) == Some((c as u32 / 16) as int));
    assert(hex_value(l) == Some((c as u32 % 16) as int));
    let s3 = s.drop_last();
    let s2 = s3.drop_last();
    let s1 = s2.drop_last();
    assert(s1.len() == 1 && s1[0] == '0');
    assert(hex_number(s1) == Some(0int));
    assert(s2.last() == '0');
    assert(hex_number(s2) == Some(0int));
    assert(s3.last() == h);
    assert(hex_number(s3) == Some((c as u32 / 16) as int));
    assert(s.last() == l);
}

/// The rest of a string literal reads back as the text it was written for.
proof fn lemma_read_escaped(t: Seq<char>, p: int, rest: Seq<char>, acc: Seq<char>)
    requires
        occurs_at(t, escape_all(rest) + seq!['"'], p),
    ensures
        read_chars(t, p, acc) == Ok::<(Seq<char>, int), Seq<char>>(
            (acc + rest, p + escape_all(rest).len() + 1),
        ),
    decreases rest.len(),
{
    let w = escape_all(rest) + seq!['"'];
    let sub = t.subrange(p, p + w.len());
    assert(forall|i: int| 0 <= i < w.len() ==> t[p + i] == #[trigger] sub[i]);
    if rest.len() == 0 {
        assert(sub[0] == '"');
        assert(t[p] == '"');
        assert(acc + rest =~= acc);
    } else {
        let c = rest[0];
        let e = escape_char(c);
        let tail = rest.skip(1);
        let w2 = escape_all(tail) + seq!['"'];
        assert(w =~= e + w2);
        assert(forall|i: int| 0 <= i < e.len() ==> t[p + i] == #[trigger] e[i]) by {
            assert forall|i: int| 0 <= i < e.len() implies t[p + i] == #[trigger] e[i] by {
                assert(w[i] == e[i]);
                assert(sub[i] == w[i]);
            }
        }
        assert(t.subrange(p + e.len(), p + e.len() + w2.len()) =~= w2) by {
            assert forall|i: int| 0 <= i < w2.len() implies t[p + e.len() + i] == w2[i] by {
                assert(w[e.len() + i] == w2[i]);
                assert(sub[e.len() + i] == w[e.len() + i]);
            }
        }
        assert(e[0] == t[p]);
        lemma_read_escaped(t, p + e.len(), tail, acc.push(c));
        assert(acc.push(c) + tail =~= acc + rest);
        if e.len() == 1 {
            assert(t[p] == c);
            assert(read_chars(t, p, acc) == read_chars(t, p + 1, acc.push(c)));
        } else if e.len() == 2 {
            assert(t[p + 1] == e[1]);
            assert(simple_escape(e[1]) == Some(c));
            assert(read_chars(t, p, acc) == read_chars(t, p + 2, acc.push(c)));
        } else {
            assert(t[p + 1] == e[1]);
            assert(simple_escape('u') is None);
            lemma_hex_pair(c);
            assert(t.subrange(p + 2, escape_end(t, p + 2)) =~= e.skip(2)) by {
                assert(t[p + 2] == e[2] && t[p + 3] == e[3] && t[p + 4] == e[4] && t[p + 5]
                    == e[5]);
            }
            assert(e.skip(2) =~= seq![
                '0',
                '0',
                hex_char((c as u32 / 16) as int),
                hex_char((c as u32 % 16) as int),
            ]);
            assert(escape_code(t.subrange(p + 2, escape_end(t, p + 2))) == Some(c as int));
            assert(read_chars(t, p, acc) == read_chars(t, p + 6, acc.push(c)));
        }
    }
}

/// A string literal reads back as the text it was written for, wherever it
/// stands.
pub proof fn law_string_reads_back(t: Seq<char>, p: int, s: Seq<char>)
    requires
        occurs_at(t, escape_json(s), p),
    ensures
        read_string(t, p) == Ok::<(Seq<char>, int), Seq<char>>((s, p + escape_json(s).len())),
{
    let w = escape_json(s);
    let sub = t.subrange(p, p + w.len());
    assert(sub[0] == '"');
    let inner = escape_all(s) + seq!['"'];
    assert(t.subrange(p + 1, p + 1 + inner.len()) =~= inner) by {
        assert forall|i: int| 0 <= i < inner.len() implies t[p + 1 + i] == inner[i] by {
            assert(w[i + 1] == inner[i]);
            assert(sub[i + 1] == w[i + 1]);
        }
    }
    lemma_read_escaped(t, p + 1, s, Seq::empty());
    assert(Seq::<char>::empty() + s =~= s);
}

/// A text that a reader takes for one number.
pub open spec fn number_text(t: Seq<char>) -> bool {
    &&& number(t) is Some
    &&& t.len() > 0
    &&& t[0] == '-' || is_digit(t[0])
    &&& number_end(t, 0) == t.len()
}

/// Whether every number in `v` is a number text.
pub open spec fn writable(v: Json) -> bool
    decreases v,
{
    match v {
        Json::Number(n) => number_text(n),
        Json::Array(a) => forall|i: int| 0 <= i < a.len() ==> writable(#[trigger] a[i]),
        Json::Object(o) => forall|i: int| 0 <= i < o.len() ==> writable((#[trigger] o[i]).1),
        _ => true,
    }
}

/// `v` with every number in canonical form.
pub open spec fn settled(v: Json) -> Json
    decreases v,
{
    match v {
        Json::Number(n) => Json::Number(number(n)->Some_0),
        Json::Array(a) => Json::Array(settled_items(a)),
        Json::Object(o) => Json::Object(settled_members(o)),
        _ => v,
    }
}

pub open spec fn settled_items(a: Seq<Json>) -> Seq<Json>
    decreases a,
{
    Seq::new(
        a.len(),
        |i: int|
            if 0 <= i < a.len() {
                settled(a[i])
            } else {
                Json::Null
            },
    )
}

pub open spec fn settled_members(o: Seq<(Seq<char>, Json)>) -> Seq<(Seq<char>, Json)>
    decreases o,
{
    Seq::new(
        o.len(),
        |i: int|
            if 0 <= i < o.len() {
                (o[i].0, settled(o[i].1))
            } else {
                (Seq::empty(), Json::Null)
            },
    )
}

/// What may stand behind a value: nothing, or the end or separator of what
/// holds it.
pub open spec fn stops(c: Option<char>) -> bool {
    match c {
        None => true,
        Some(c) => c == ',' || c == ']' || c == '}',
    }
}

proof fn lemma_skip_digits_inside(t: Seq<char>, p: int, w: Seq<char>, i: int)
    requires
        occurs_at(t, w, p),
        stops(at(t, p + w.len())),
        0 <= i <= w.len(),
    ensures
        skip_digits(t, p + i) == p + skip_digits(w, i),
        i <= skip_digits(w, i) <= w.len(),
    decreases w.len() - i,
{
    if i < w.len() {
        assert(t.subrange(p, p + w.len())[i] == w[i]);
        if is_digit(w[i]) {
            lemma_skip_digits_inside(t, p, w, i + 1);
        }
    }
}

proof fn lemma_at_inside(t: Seq<char>, p: int, w: Seq<char>, i: int)
    requires
        occurs_at(t, w, p),
        0 <= i < w.len(),
    ensures
        at(t, p + i) == at(w, i),
        at(t, p + i) == Some(w[i]),
{
    assert(t.subrange(p, p + w.len())[i] == w[i]);
}

proof fn lemma_number_end_inside(t: Seq<char>, p: int, w: Seq<char>)
    requires
        occurs_at(t, w, p),
        stops(at(t, p + w.len())),
        number_text(w),
    ensures
        number_end(t, p) == p + w.len(),
{
    assert forall|i: int| 0 <= i < w.len() implies at(t, p + i) == #[trigger] at(w, i) by {
        lemma_at_inside(t, p, w, i);
    }
    assert(at(w, w.len() as int) is None);
    lemma_at_inside(t, p, w, 0);
    let a = if w[0] == '-' {
        1int
    } else {
        0int
    };
    lemma_skip_digits_inside(t, p, w, a);
    let q = skip_digits(w, a);
    assert(skip_digits(t, p + a) == p + q);
    assert(at(t, p + q) == Some('.') <==> at(w, q) == Some('.'));
    let q2 = if at(w, q) == Some('.') {
        lemma_skip_digits_inside(t, p, w, q + 1);
        skip_digits(w, q + 1)
    } else {
        q
    };
    assert(at(t, p + q2) == at(w, q2) || q2 == w.len());
    if at(w, q2) == Some('e') || at(w, q2) == Some('E') {
        lemma_skip_digits_inside(t, p, w, q2 + 1);
        if at(w, q2 + 1) == Some('+') || at(w, q2 + 1) == Some('-') {
            lemma_skip_digits_inside(t, p, w, q2 + 2);
        }
        assert(q2 + 1 < w.len() ==> at(t, p + (q2 + 1)) == at(w, q2 + 1));
    }
    assert(skip_exponent(t, p + q2) == p + skip_exponent(w, q2));
}

proof fn lemma_first_of_print(v: Json)
    requires
        writable(v),
    ensures
        print_json(v).len() > 0,
        !is_white(print_json(v)[0]),
        print_json(v)[0] != ']',
        v is Array ==> print_json(v)[0] == '[',
        v is Object ==> print_json(v)[0] == '{',
        v is Text ==> print_json(v)[0] == '"',
        v is Null ==> print_json(v)[0] == 'n',
        v is Bool ==> print_json(v)[0] == if v->Bool_0 {
            't'
        } else {
            'f'
        },
{
    reveal_strlit("null");
    reveal_strlit("true");
    reveal_strlit("false");
}

proof fn lemma_occurs_part(t: Seq<char>, p: int, w: Seq<char>, a: Seq<char>, b: Seq<char>)
    requires
        occurs_at(t, w, p),
        w == a + b,
    ensures
        occurs_at(t, a, p),
        occurs_at(t, b, p + a.len()),
{
    let sub = t.subrange(p, p + w.len());
    assert forall|i: int| 0 <= i < w.len() implies t[p + i] == #[trigger] w[i] by {
        assert(sub[i] == w[i]);
    }
    assert(t.subrange(p, p + a.len()) =~= a) by {
        assert forall|i: int| 0 <= i < a.len() implies t[p + i] == a[i] by {
            assert(w[i] == a[i]);
        }
    }
    assert(t.subrange(p + a.len(), p + a.len() + b.len()) =~= b) by {
        assert forall|i: int| 0 <= i < b.len() implies t[p + a.len() + i] == b[i] by {
            assert(w[a.len() + i] == b[i]);
        }
    }
}

/// A printed value reads back, its numbers in canonical form, wherever it
/// stands, as long as what follows it may follow a value.
pub proof fn law_value_reads_back(t: Seq<char>, p: int, v: Json)
    requires
        writable(v),
        occurs_at(t, print_json(v), p),
        stops(at(t, p + print_json(v).len())),
    ensures
        read_value(t, p) == Ok::<(Json, int), Seq<char>>((settled(v), p + print_json(v).len())),
    decreases v, 0int,
{
    let w = print_json(v);
    lemma_first_of_print(v);
    lemma_at_inside(t, p, w, 0);
    assert(skip_white(t, p) == p);
    match v {
        Json::Number(n) => {
            lemma_number_end_inside(t, p, w);
            assert(t.subrange(p, p + w.len()) == n);
        },
        Json::Text(s) => {
            law_string_reads_back(t, p, s);
        },
        Json::Array(a) => {
            let inner = print_items(a) + seq![']'];
            assert(w =~= seq!['['] + inner);
            lemma_occurs_part(t, p, w, seq!['['], inner);
            if a.len() == 0 {
                assert(inner =~= seq![']']);
                lemma_at_inside(t, p + 1, inner, 0);
                assert(skip_white(t, p + 1) == p + 1);
                assert(settled_items(a) =~= Seq::empty());
            } else {
                lemma_items_read_back(t, p + 1, a, Seq::empty());
                assert(Seq::<Json>::empty() + settled_items(a) =~= settled_items(a));
                lemma_first_of_print(a[0]);
                lemma_occurs_part(t, p + 1, inner, print_items(a), seq![']']);
                lemma_first_of_items(a);
                lemma_at_inside(t, p + 1, print_items(a), 0);
                assert(skip_white(t, p + 1) == p + 1);
            }
        },
        Json::Object(o) => {
            let inner = print_members(o) + seq!['}'];
            assert(w =~= seq!['{'] + inner);
            lemma_occurs_part(t, p, w, seq!['{'], inner);
            if o.len() == 0 {
                assert(inner =~= seq!['}']);
                lemma_at_inside(t, p + 1, inner, 0);
                assert(skip_white(t, p + 1) == p + 1);
                assert(settled_members(o) =~= Seq::empty());
            } else {
                lemma_members_read_back(t, p + 1, o, Seq::empty());
                assert(Seq::<(Seq<char>, Json)>::empty() + settled_members(o) =~= settled_members(o));
                lemma_occurs_part(t, p + 1, inner, print_members(o), seq!['}']);
                lemma_first_of_members(o);
                lemma_at_inside(t, p + 1, print_members(o), 0);
                assert(skip_white(t, p + 1) == p + 1);
            }
        },
        _ => {
            reveal_strlit("null");
            reveal_strlit("true");
            reveal_strlit("false");
        },
    }
}

proof fn lemma_first_of_items(a: Seq<Json>)
    requires
        a.len() > 0,
        writable(a[0]),
    ensures
        print_items(a).len() > 0,
        print_items(a)[0] == print_json(a[0])[0],
{
    lemma_first_of_print(a[0]);
}

proof fn lemma_first_of_members(o: Seq<(Seq<char>, Json)>)
    requires
        o.len() > 0,
    ensures
        print_members(o).len() > 0,
        print_members(o)[0] == '"',
{
    assert(print_member(o[0])[0] == '"');
}

proof fn lemma_items_read_back(t: Seq<char>, p: int, a: Seq<Json>, acc: Seq<Json>)
    requires
        a.len() > 0,
        forall|i: int| 0 <= i < a.len() ==> writable(#[trigger] a[i]),
        occurs_at(t, print_items(a) + seq![']'], p),
    ensures
        read_items(t, p, acc) == Ok::<(Json, int), Seq<char>>(
            (Json::Array(acc + settled_items(a)), p + print_items(a).len() + 1),
        ),
    decreases a, 1int,
{
    let w = print_items(a) + seq![']'];
    let first = print_json(a[0]);
    if a.len() == 1 {
        lemma_occurs_part(t, p, w, first, seq![']']);
        lemma_at_inside(t, p + first.len(), seq![']'], 0);
        law_value_reads_back(t, p, a[0]);
        assert(skip_white(t, p + first.len()) == p + first.len());
        assert(acc.push(settled(a[0])) =~= acc + settled_items(a));
    } else {
        let rest = print_items(a.skip(1)) + seq![']'];
        let tail = seq![','] + rest;
        assert(w =~= first + tail);
        lemma_occurs_part(t, p, w, first, tail);
        lemma_occurs_part(t, p + first.len(), tail, seq![','], rest);
        lemma_at_inside(t, p + first.len(), tail, 0);
        law_value_reads_back(t, p, a[0]);
        assert(skip_white(t, p + first.len()) == p + first.len());
        assert forall|i: int| 0 <= i < a.skip(1).len() implies writable(#[trigger] a.skip(1)[i]) by {
            assert(writable(a[i + 1]));
        }
        assert(decreases_to!(a => a.skip(1)));
        lemma_items_read_back(t, p + first.len() + 1, a.skip(1), acc.push(settled(a[0])));
        assert(acc.push(settled(a[0])) + settled_items(a.skip(1)) =~= acc + settled_items(a));
    }
}

proof fn lemma_members_read_back(
    t: Seq<char>,
    p: int,
    o: Seq<(Seq<char>, Json)>,
    acc: Seq<(Seq<char>, Json)>,
)
    requires
        o.len() > 0,
        forall|i: int| 0 <= i < o.len() ==> writable((#[trigger] o[i]).1),
        occurs_at(t, print_members(o) + seq!['}'], p),
    ensures
        read_members(t, p, acc) == Ok::<(Json, int), Seq<char>>(
            (Json::Object(acc + settled_members(o)), p + print_members(o).len() + 1),
        ),
    decreases o, 1int,
{
    let w = print_members(o) + seq!['}'];
    let (key, v) = o[0];
    let k = escape_json(key);
    let pv = print_json(v);
    let rest = if o.len() == 1 {
        seq!['}']
    } else {
        seq![','] + (print_members(o.skip(1)) + seq!['}'])
    };
    assert(print_member(o[0]) == k + seq![':'] + pv);
    assert(w =~= k + (seq![':'] + (pv + rest)));
    lemma_occurs_part(t, p, w, k, seq![':'] + (pv + rest));
    lemma_occurs_part(t, p + k.len(), seq![':'] + (pv + rest), seq![':'], pv + rest);
    lemma_at_inside(t, p + k.len(), seq![':'], 0);
    lemma_occurs_part(t, p + k.len() + 1, pv + rest, pv, rest);
    lemma_at_inside(t, p + k.len() + 1 + pv.len(), rest, 0);
    lemma_at_inside(t, p, k, 0);
    assert(skip_white(t, p) == p);
    law_string_reads_back(t, p, key);
    assert(skip_white(t, p + k.len()) == p + k.len());
    assert(writable(o[0].1));
    law_value_reads_back(t, p + k.len() + 1, v);
    let r = p + k.len() + 1 + pv.len();
    assert(skip_white(t, r) == r);
    if o.len() == 1 {
        assert(acc.push((key, settled(v))) =~= acc + settled_members(o));
    } else {
        let more = print_members(o.skip(1)) + seq!['}'];
        lemma_occurs_part(t, r, rest, seq![','], more);
        assert forall|i: int| 0 <= i < o.skip(1).len() implies writable(
            (#[trigger] o.skip(1)[i]).1,
        ) by {
            assert(writable(o[i + 1].1));
        }
        assert(decreases_to!(o => o.skip(1)));
        lemma_members_read_back(t, r + 1, o.skip(1), acc.push((key, settled(v))));
        assert(acc.push((key, settled(v))) + settled_members(o.skip(1)) =~= acc + settled_members(
            o,
        ));
    }
}

/// Reading the printed text of a value gives the value, its numbers in
/// canonical form.
pub proof fn law_json_reads_back(v: Json)
    requires
        writable(v),
    ensures
        read_json(print_json(v)) == Ok::<Json, Seq<char>>(settled(v)),
{
    let t = print_json(v);
    assert(t.subrange(0, t.len() as int) =~= t);
    law_value_reads_back(t, 0, v);
    assert(skip_white(t, t.len() as int) == t.len());
}

} // verus!
