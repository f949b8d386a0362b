//! The line-protocol encoder: one textual line per sample,
//! `<measurement>(,<key>=<value>)* value=<number> <timestamp>\n`,
//! with `,` and ` ` escaped everywhere and `=` escaped in tag keys and
//! values.  The escaping has an exact inverse, proved below.

use vstd::prelude::*;

use crate::strutil::{dec_str, u128_to_dec};

verus! {

/// Whether `c` is escaped: `,` and ` ` always, `=` only where `esc_eq` (in
/// tag keys and values).
pub open spec fn is_escaped_char(c: char, esc_eq: bool) -> bool {
    c == ',' || c == ' ' || (esc_eq && c == '=')
}

/// What one character contributes to the escaped text.
pub open spec fn esc_char(c: char, esc_eq: bool) -> Seq<char> {
    if is_escaped_char(c, esc_eq) {
        seq!['\\', c]
    } else {
        seq![c]
    }
}

/// The escaped form of `s`.
pub open spec fn escape(s: Seq<char>, esc_eq: bool) -> Seq<char>
    decreases s.len(),
{
    if s.len() == 0 {
        Seq::empty()
    } else {
        esc_char(s[0], esc_eq) + escape(s.drop_first(), esc_eq)
    }
}

/// The inverse reading: a backslash followed by an escaped character stands
/// for that character; anything else stands for itself.
pub open spec fn unescape(s: Seq<char>, esc_eq: bool) -> Seq<char>
    decreases s.len(),
{
    if s.len() == 0 {
        Seq::empty()
    } else if s[0] == '\\' && s.len() >= 2 && is_escaped_char(s[1], esc_eq) {
        seq![s[1]] + unescape(s.subrange(2, s.len() as int), esc_eq)
    } else {
        seq![s[0]] + unescape(s.drop_first(), esc_eq)
    }
}

/// Appending one character appends its escaped form.
proof fn lemma_escape_snoc(s: Seq<char>, c: char, esc_eq: bool)
    ensures
        escape(s.push(c), esc_eq) == escape(s, esc_eq) + esc_char(c, esc_eq),
    decreases s.len(),
{
    let p = s.push(c);
    if s.len() == 0 {
        assert(p[0] == c);
        assert(p.drop_first() =~= Seq::<char>::empty());
        assert(escape(p, esc_eq) == esc_char(c, esc_eq) + escape(Seq::<char>::empty(), esc_eq));
        assert(escape(p, esc_eq) =~= escape(s, esc_eq) + esc_char(c, esc_eq));
    } else {
        lemma_escape_snoc(s.drop_first(), c, esc_eq);
        assert(p.drop_first() =~= s.drop_first().push(c));
        assert(p[0] == s[0]);
        assert(escape(p, esc_eq) == esc_char(s[0], esc_eq) + (escape(s.drop_first(), esc_eq)
            + esc_char(c, esc_eq)));
        assert(esc_char(s[0], esc_eq) + (escape(s.drop_first(), esc_eq) + esc_char(c, esc_eq))
            =~= (esc_char(s[0], esc_eq) + escape(s.drop_first(), esc_eq)) + esc_char(c, esc_eq));
    }
}

/// Escaped text never begins with a character that escaping would hide.
proof fn lemma_escape_head_not_special(s: Seq<char>, esc_eq: bool)
    ensures
        escape(s, esc_eq).len() > 0 ==> !is_escaped_char(escape(s, esc_eq)[0], esc_eq),
{
    if s.len() > 0 {
        assert(escape(s, esc_eq)[0] == esc_char(s[0], esc_eq)[0]);
    }
}

/// Encoder escaping law: unescaping with the matching rules recovers every
/// original text exactly.
pub proof fn lemma_escape_roundtrip(s: Seq<char>, esc_eq: bool)
    ensures
        unescape(escape(s, esc_eq), esc_eq) == s,
    decreases s.len(),
{
    if s.len() == 0 {
        assert(unescape(escape(s, esc_eq), esc_eq) =~= s);
    } else {
        let c = s[0];
        let rest = s.drop_first();
        lemma_escape_roundtrip(rest, esc_eq);
        let t = escape(rest, esc_eq);
        let whole = escape(s, esc_eq);
        assert(whole == esc_char(c, esc_eq) + t);
        if is_escaped_char(c, esc_eq) {
            assert(whole[0] == '\\' && whole[1] == c);
            assert(whole.subrange(2, whole.len() as int) =~= t);
            assert(unescape(whole, esc_eq) =~= seq![c] + rest);
            assert(seq![c] + rest =~= s);
        } else {
            assert(whole[0] == c);
            assert(!(c == '\\' && whole.len() >= 2 && is_escaped_char(whole[1], esc_eq))) by {
                if c == '\\' && whole.len() >= 2 {
                    assert(whole.drop_first() =~= t);
                    lemma_escape_head_not_special(rest, esc_eq);
                }
            }
            assert(whole.drop_first() =~= t);
            assert(unescape(whole, esc_eq) =~= seq![c] + rest);
            assert(seq![c] + rest =~= s);
        }
    }
}

/// Escapes `s`: a backslash is put before every `,` and ` `, and before
/// every `=` where `esc_eq` holds.
pub fn escape_str(s: &str, esc_eq: bool) -> (r: String)
    ensures
        r@ == escape(s@, esc_eq),
{
    proof {
        reveal_strlit("\\");
        reveal_strlit(",");
        reveal_strlit(" ");
        reveal_strlit("=");
    }
    let n = s.unicode_len();
    let mut out = String::new();
    let mut i: usize = 0;
    while i < n
        invariant
            i <= n,
            n == s@.len(),
            out@ == escape(s@.subrange(0, i as int), esc_eq),
        decreases n - i,
    {
        let c = s.get_char(i);
        if c == ',' || c == ' ' || (esc_eq && c == '=') {
            out.append("\\");
            if c == ',' {
                out.append(",");
            } else if c == ' ' {
                out.append(" ");
            } else {
                out.append("=");
            }
        } else {
            let sub = s.substring_char(i, i + 1);
            assert(sub@ =~= seq![c]);
            out.append(sub);
        }
        proof {
            reveal_strlit("\\");
            reveal_strlit(",");
            reveal_strlit(" ");
            reveal_strlit("=");
            lemma_escape_snoc(s@.subrange(0, i as int), c, esc_eq);
            assert(s@.subrange(0, i + 1 as int) =~= s@.subrange(0, i as int).push(c));
            assert(out@ =~= escape(s@.subrange(0, i + 1 as int), esc_eq));
        }
        i += 1;
    }
    proof {
        assert(s@.subrange(0, s@.len() as int) =~= s@);
    }
    out
}

/// Undoes `escape_str` with the matching rules.
pub fn unescape_str(s: &str, esc_eq: bool) -> (r: String)
    ensures
        r@ == unescape(s@, esc_eq),
{
    let n = s.unicode_len();
    let mut out = String::new();
    proof {
        assert(s@.subrange(0, n as int) =~= s@);
        assert(out@ + unescape(s@, esc_eq) =~= unescape(s@, esc_eq));
    }
    let mut i: usize = 0;
    while i < n
        invariant
            i <= n,
            n == s@.len(),
            unescape(s@, esc_eq) == out@ + unescape(s@.subrange(i as int, n as int), esc_eq),
        decreases n - i,
    {
        let ghost tail = s@.subrange(i as int, n as int);
        let c = s.get_char(i);
        assert(tail[0] == c);
        if c == '\\' && i + 1 < n {
            let c2 = s.get_char(i + 1);
            assert(tail[1] == c2);
            if c2 == ',' || c2 == ' ' || (esc_eq && c2 == '=') {
                let sub = s.substring_char(i + 1, i + 2);
                assert(sub@ =~= seq![c2]);
                out.append(sub);
                proof {
                    assert(tail.subrange(2, tail.len() as int) =~= s@.subrange(
                        i + 2 as int,
                        n as int,
                    ));
                    assert(unescape(tail, esc_eq) == seq![c2] + unescape(
                        s@.subrange(i + 2 as int, n as int),
                        esc_eq,
                    ));
                    assert(unescape(s@, esc_eq) =~= out@ + unescape(
                        s@.subrange(i + 2 as int, n as int),
                        esc_eq,
                    ));
                }
                i += 2;
            } else {
                let sub = s.substring_char(i, i + 1);
                assert(sub@ =~= seq![c]);
                out.append(sub);
                proof {
                    assert(tail.drop_first() =~= s@.subrange(i + 1 as int, n as int));
                    assert(unescape(tail, esc_eq) == seq![c] + unescape(
                        s@.subrange(i + 1 as int, n as int),
                        esc_eq,
                    ));
                    assert(unescape(s@, esc_eq) =~= out@ + unescape(
                        s@.subrange(i + 1 as int, n as int),
                        esc_eq,
                    ));
                }
                i += 1;
            }
        } else {
            let sub = s.substring_char(i, i + 1);
            assert(sub@ =~= seq![c]);
            out.append(sub);
            proof {
                assert(tail.drop_first() =~= s@.subrange(i + 1 as int, n as int));
                assert(unescape(tail, esc_eq) == seq![c] + unescape(
                    s@.subrange(i + 1 as int, n as int),
                    esc_eq,
                ));
                assert(unescape(s@, esc_eq) =~= out@ + unescape(
                    s@.subrange(i + 1 as int, n as int),
                    esc_eq,
                ));
            }
            i += 1;
        }
    }
    proof {
        assert(s@.subrange(n as int, n as int) =~= Seq::<char>::empty());
        assert(out@ =~= out@ + unescape(s@.subrange(n as int, n as int), esc_eq));
    }
    out
}

/// What one tag contributes to a line.
pub open spec fn spec_tag_frag(k: Seq<char>, v: Seq<char>) -> Seq<char> {
    seq![','] + escape(k, true) + seq!['='] + escape(v, true)
}

/// What a tag list contributes to a line, in stored order.
pub open spec fn spec_tags_frag(tags: Seq<(Seq<char>, Seq<char>)>) -> Seq<char>
    decreases tags.len(),
{
    if tags.len() == 0 {
        Seq::empty()
    } else {
        spec_tags_frag(tags.drop_last()) + spec_tag_frag(tags.last().0, tags.last().1)
    }
}

/// One whole line: escaped measurement, the tags in order, the rendered
/// value, and the timestamp in decimal, newline-terminated.
pub open spec fn spec_line(
    meas: Seq<char>,
    tags: Seq<(Seq<char>, Seq<char>)>,
    value: Seq<char>,
    timestamp: nat,
) -> Seq<char> {
    escape(meas, false) + spec_tags_frag(tags) + " value="@ + value + " "@ + dec_str(timestamp)
        + "\n"@
}

/// Formats one sample as a line-protocol record.  `value` arrives already
/// rendered in decimal text, since turning the decoded bits into an `f64`
/// happens outside the verified core.
pub fn influxdb_line(
    measurement: &str,
    tags: &Vec<(String, String)>,
    value: &str,
    timestamp: u128,
) -> (r: String)
    ensures
        r@ == spec_line(measurement@, tags.deep_view(), value@, timestamp as nat),
{
    proof {
        reveal_strlit(",");
        reveal_strlit("=");
    }
    let mut line = escape_str(measurement, false);
    let mut i: usize = 0;
    while i < tags.len()
        invariant
            i <= tags.len(),
            line@ == escape(measurement@, false) + spec_tags_frag(
                tags.deep_view().subrange(0, i as int),
            ),
        decreases tags.len() - i,
    {
        line.append(",");
        let ek = escape_str(tags[i].0.as_str(), true);
        line.append(ek.as_str());
        line.append("=");
        let ev = escape_str(tags[i].1.as_str(), true);
        line.append(ev.as_str());
        proof {
            reveal_strlit(",");
            reveal_strlit("=");
            let dv = tags.deep_view();
            assert(dv.subrange(0, i + 1 as int).drop_last() =~= dv.subrange(0, i as int));
            assert(dv.subrange(0, i + 1 as int).last() == dv[i as int]);
            assert(dv[i as int] == (tags@[i as int].0@, tags@[i as int].1@));
            assert(spec_tags_frag(dv.subrange(0, i + 1 as int)) == spec_tags_frag(
                dv.subrange(0, i as int),
            ) + spec_tag_frag(tags@[i as int].0@, tags@[i as int].1@));
            assert(line@ =~= escape(measurement@, false) + spec_tags_frag(
                dv.subrange(0, i + 1 as int),
            ));
        }
        i += 1;
    }
    proof {
        assert(tags.deep_view().subrange(0, tags@.len() as int) =~= tags.deep_view());
    }
    line.append(" value=");
    line.append(value);
    line.append(" ");
    let ts = u128_to_dec(timestamp);
    line.append(ts.as_str());
    line.append("\n");
    proof {
        assert(line@ =~= spec_line(measurement@, tags.deep_view(), value@, timestamp as nat));
    }
    line
}

} // verus!
