//! Text that stands inside SVG or HTML.

use vstd::prelude::*;

use crate::text::chars_of;

verus! {

/// The text that stands for one character inside markup.
pub open spec fn entity(c: char) -> Seq<char> {
    if c == '&' {
        "&amp;"@
    } else if c == '<' {
        "&lt;"@
    } else if c == '>' {
        "&gt;"@
    } else if c == '"' {
        "&quot;"@
    } else if c == '\'' {
        "&#39;"@
    } else {
        seq![c]
    }
}

/// `s` as it is written inside an attribute value or between tags.
pub open spec fn escaped(s: Seq<char>) -> Seq<char>
    decreases s.len(),
{
    if s.len() == 0 {
        Seq::empty()
    } else {
        escaped(s.drop_last()) + entity(s.last())
    }
}

/// `s` as it is written inside an attribute value or between tags.
pub fn escape(s: &str) -> (r: String)
    ensures
        r@ == escaped(s@),
{
    let c = chars_of(s);
    let mut out = String::new();
    let mut i: usize = 0;
    assert(c@.take(0) =~= Seq::empty());
    while i < c.len()
        invariant
            i <= c@.len(),
            out@ == escaped(c@.take(i as int)),
        decreases c@.len() - i,
    {
        assert(c@.take(i as int + 1).drop_last() =~= c@.take(i as int));
        let ghost before = out@;
        match c[i] {
            '&' => {
                out.append("&amp;");
            },
            '<' => {
                out.append("&lt;");
            },
            '>' => {
                out.append("&gt;");
            },
            '"' => {
                out.append("&quot;");
            },
            '\'' => {
                out.append("&#39;");
            },
            x => {
                out.push(x);
                assert(out@ =~= before + seq![x]);
            },
        }
        i += 1;
    }
    assert(c@.take(c@.len() as int) =~= c@);
    out
}

/// Whether `c` can begin or end a tag or an attribute value.
pub open spec fn is_markup(c: char) -> bool {
    c == '<' || c == '>' || c == '"' || c == '\''
}

/// Whether no character of `s` is markup.
pub open spec fn inert(s: Seq<char>) -> bool {
    forall|i: int| 0 <= i < s.len() ==> !is_markup(#[trigger] s[i])
}

/// Escaped text holds no markup: it can neither close the attribute value
/// it stands in nor open a tag.
pub proof fn law_escaped_is_inert(s: Seq<char>)
    ensures
        inert(escaped(s)),
    decreases s.len(),
{
    reveal_strlit("&amp;");
    reveal_strlit("&lt;");
    reveal_strlit("&gt;");
    reveal_strlit("&quot;");
    reveal_strlit("&#39;");
    if s.len() > 0 {
        law_escaped_is_inert(s.drop_last());
        let a = escaped(s.drop_last());
        let e = entity(s.last());
        assert(inert(e));
        assert forall|i: int| 0 <= i < escaped(s).len() implies !is_markup(
            #[trigger] escaped(s)[i],
        ) by {
            if i < a.len() {
                assert(escaped(s)[i] == a[i]);
            } else {
                assert(escaped(s)[i] == e[i - a.len()]);
            }
        }
    }
}

/// Text without markup and without `&` is written as it is.
pub proof fn law_plain_text_is_kept(s: Seq<char>)
    requires
        forall|i: int| 0 <= i < s.len() ==> !is_markup(#[trigger] s[i]) && s[i] != '&',
    ensures
        escaped(s) == s,
    decreases s.len(),
{
    if s.len() > 0 {
        let h = s.drop_last();
        assert forall|i: int| 0 <= i < h.len() implies !is_markup(#[trigger] h[i]) && h[i] != '&' by {
            assert(!is_markup(s[i]));
        }
        law_plain_text_is_kept(h);
        assert(!is_markup(s[s.len() - 1]));
        assert(h + seq![s.last()] =~= s);
    } else {
        assert(s =~= Seq::empty());
    }
}

/// The attribute `name="value"`, with a space in front.
pub open spec fn attribute(name: Seq<char>, value: Seq<char>) -> Seq<char> {
    " "@ + name + "=\""@ + value + "\""@
}

pub fn attr(name: &str, value: &str) -> (r: String)
    ensures
        r@ == attribute(name@, value@),
{
    let mut r = " ".to_owned();
    r.append(name);
    r.append("=\"");
    r.append(value);
    r.append("\"");
    r
}

/// The value where there is one, else the default.
pub open spec fn or_default(v: Option<Seq<char>>, default: Seq<char>) -> Seq<char> {
    match v {
        Some(s) => s,
        None => default,
    }
}

/// A style value as it is written inside an attribute.
pub open spec fn style_text(v: Option<Seq<char>>, default: Seq<char>) -> Seq<char> {
    escaped(or_default(v, default))
}

pub fn style_attr(v: &Option<String>, default: &str) -> (r: String)
    ensures
        r@ == style_text(crate::model::opt_text(*v), default@),
{
    match v {
        Some(s) => escape(s.as_str()),
        None => escape(default),
    }
}

} // verus!
