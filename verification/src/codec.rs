//! The checkpoint codec: the crawl state as one JSON record
//! `{"urls_to_visit":[...],"visited_urls":[...]}`, written and read back
//! without loss.

use vstd::prelude::*;
use crate::state::CrawlState;
use crate::state::views_of;

verus! {

/// How one character is written inside a JSON string: a quote or a backslash
/// gets a backslash escape, everything else stands as itself.
pub open spec fn esc_char(c: char) -> Seq<char> {
    if c == '"' || c == '\\' {
        seq!['\\', c]
    } else {
        seq![c]
    }
}

/// A string's characters as written inside its quotes.
pub open spec fn escape(s: Seq<char>) -> Seq<char>
    decreases s.len(),
{
    if s.len() == 0 {
        Seq::empty()
    } else {
        esc_char(s[0]) + escape(s.drop_first())
    }
}

/// A string as written: quoted and escaped.
pub open spec fn enc_string(s: Seq<char>) -> Seq<char> {
    seq!['"'] + escape(s) + seq!['"']
}

/// The members of a non-empty array, comma-separated.
pub open spec fn enc_items(l: Seq<Seq<char>>) -> Seq<char>
    decreases l.len(),
{
    if l.len() == 0 {
        Seq::empty()
    } else if l.len() == 1 {
        enc_string(l[0])
    } else {
        enc_string(l[0]) + seq![','] + enc_items(l.drop_first())
    }
}

/// An array of strings as written.
pub open spec fn enc_list(l: Seq<Seq<char>>) -> Seq<char> {
    seq!['['] + enc_items(l) + seq![']']
}

/// The opening of the record, up to the frontier array.
pub open spec fn key_frontier() -> Seq<char> {
    "{\"urls_to_visit\":"@
}

/// The middle of the record, between the two arrays.
pub open spec fn key_visited() -> Seq<char> {
    ",\"visited_urls\":"@
}

/// A whole crawl state as written to the checkpoint.
pub open spec fn enc_state(fr: Seq<Seq<char>>, vis: Seq<Seq<char>>) -> Seq<char> {
    key_frontier() + enc_list(fr) + key_visited() + enc_list(vis) + seq!['}']
}

/// The characters of `p` stand in `s` at position `i`.
pub open spec fn matches_at(s: Seq<char>, i: int, p: Seq<char>) -> bool {
    0 <= i && i + p.len() <= s.len() && s.subrange(i, i + p.len()) == p
}

/// Read a string body at `i` (just after the opening quote) up to its
/// closing quote: the unescaped content and the index after the quote, or
/// `None` on an unterminated string or a bad escape.
pub open spec fn parse_string_body(s: Seq<char>, i: int) -> Option<(Seq<char>, int)>
    decreases s.len() - i,
{
    if i < 0 || i >= s.len() {
        None
    } else if s[i] == '"' {
        Some((Seq::empty(), i + 1))
    } else if s[i] == '\\' {
        if i + 1 < s.len() && (s[i + 1] == '"' || s[i + 1] == '\\') {
            match parse_string_body(s, i + 2) {
                Some((t, j)) => Some((seq![s[i + 1]] + t, j)),
                None => None,
            }
        } else {
            None
        }
    } else {
        match parse_string_body(s, i + 1) {
            Some((t, j)) => Some((seq![s[i]] + t, j)),
            None => None,
        }
    }
}

/// A successful string-body read moves forward and stays inside the text.
pub proof fn lemma_parse_string_body_bounds(s: Seq<char>, i: int)
    requires
        parse_string_body(s, i) is Some,
    ensures
        i < parse_string_body(s, i)->Some_0.1 <= s.len(),
    decreases s.len() - i,
{
    if s[i] == '"' {
    } else if s[i] == '\\' {
        lemma_parse_string_body_bounds(s, i + 2);
    } else {
        lemma_parse_string_body_bounds(s, i + 1);
    }
}

/// Read the members of a non-empty array at `i` (at the opening quote of the
/// first member) through the closing bracket: the members and the index
/// after the bracket.
pub open spec fn parse_items(s: Seq<char>, i: int) -> Option<(Seq<Seq<char>>, int)>
    decreases s.len() - i,
    via parse_items_decreases
{
    if i < 0 || i >= s.len() || s[i] != '"' {
        None
    } else {
        match parse_string_body(s, i + 1) {
            None => None,
            Some((u, j)) => {
                if j < s.len() && s[j] == ',' {
                    match parse_items(s, j + 1) {
                        Some((l, k)) => Some((seq![u] + l, k)),
                        None => None,
                    }
                } else if j < s.len() && s[j] == ']' {
                    Some((seq![u], j + 1))
                } else {
                    None
                }
            },
        }
    }
}

#[via_fn]
proof fn parse_items_decreases(s: Seq<char>, i: int) {
    if 0 <= i && i < s.len() && s[i] == '"' {
        if parse_string_body(s, i + 1) is Some {
            lemma_parse_string_body_bounds(s, i + 1);
        }
    }
}

/// Read an array of strings at `i` (at the opening bracket): the members and
/// the index after the closing bracket.
pub open spec fn parse_list(s: Seq<char>, i: int) -> Option<(Seq<Seq<char>>, int)> {
    if 0 <= i && i + 1 < s.len() && s[i] == '[' {
        if s[i + 1] == ']' {
            Some((Seq::empty(), i + 2))
        } else {
            parse_items(s, i + 1)
        }
    } else {
        None
    }
}

/// Read a whole checkpoint record: the frontier sequence and the visited
/// sequence, or `None` if the text is not exactly one record.
pub open spec fn parse_state(s: Seq<char>) -> Option<(Seq<Seq<char>>, Seq<Seq<char>>)> {
    if !matches_at(s, 0, key_frontier()) {
        None
    } else {
        match parse_list(s, key_frontier().len() as int) {
            None => None,
            Some((fr, j)) => {
                if !matches_at(s, j, key_visited()) {
                    None
                } else {
                    match parse_list(s, j + key_visited().len()) {
                        None => None,
                        Some((vis, k)) => {
                            if k + 1 == s.len() && s[k] == '}' {
                                Some((fr, vis))
                            } else {
                                None
                            }
                        },
                    }
                }
            },
        }
    }
}

proof fn lemma_matches_split(s: Seq<char>, i: int, w: Seq<char>, a: Seq<char>, b: Seq<char>)
    requires
        matches_at(s, i, w),
        w =~= a + b,
    ensures
        matches_at(s, i, a),
        matches_at(s, i + a.len(), b),
{
    let whole = s.subrange(i, i + w.len() as int);
    assert forall|k: int| 0 <= k < a.len() implies s.subrange(i, i + a.len() as int)[k]
        == a[k] by {
        assert(whole[k] == (a + b)[k]);
        assert(whole[k] == s[i + k]);
    }
    assert(s.subrange(i, i + a.len() as int) =~= a);
    assert forall|k: int| 0 <= k < b.len() implies s.subrange(
        i + a.len(),
        i + a.len() + b.len(),
    )[k] == b[k] by {
        assert(whole[a.len() + k] == (a + b)[a.len() + k]);
        assert((a + b)[a.len() + k] == b[k]);
        assert(whole[a.len() + k] == s[i + a.len() + k]);
    }
    assert(s.subrange(i + a.len(), i + a.len() + b.len()) =~= b);
}

/// Reading an escaped string body back yields the original characters.
proof fn lemma_parse_escaped(s: Seq<char>, i: int, c: Seq<char>)
    requires
        matches_at(s, i, escape(c) + seq!['"']),
    ensures
        parse_string_body(s, i) == Some((c, i + escape(c).len() + 1)),
    decreases c.len(),
{
    let w = escape(c) + seq!['"'];
    if c.len() == 0 {
        assert(s[i] == '"') by {
            assert(s.subrange(i, i + w.len() as int)[0] == '"');
        }
    } else {
        let rest = c.drop_first();
        assert(escape(c) == esc_char(c[0]) + escape(rest));
        if c[0] == '"' || c[0] == '\\' {
            lemma_matches_split(s, i, w, seq!['\\', c[0]], escape(rest) + seq!['"']);
            assert(s[i] == '\\' && s[i + 1] == c[0]) by {
                assert(s.subrange(i, i + 2)[0] == '\\');
                assert(s.subrange(i, i + 2)[1] == c[0]);
            }
            lemma_parse_escaped(s, i + 2, rest);
            assert(seq![s[i + 1]] + rest =~= c);
        } else {
            lemma_matches_split(s, i, w, seq![c[0]], escape(rest) + seq!['"']);
            assert(s[i] == c[0]) by {
                assert(s.subrange(i, i + 1)[0] == c[0]);
            }
            lemma_parse_escaped(s, i + 1, rest);
            assert(seq![s[i]] + rest =~= c);
        }
    }
}

/// Reading the written members of a non-empty array back yields them all.
proof fn lemma_parse_items_of_encoded(s: Seq<char>, i: int, l: Seq<Seq<char>>)
    requires
        l.len() >= 1,
        matches_at(s, i, enc_items(l) + seq![']']),
    ensures
        parse_items(s, i) == Some((l, i + enc_items(l).len() + 1)),
    decreases l.len(),
{
    let w = enc_items(l) + seq![']'];
    if l.len() == 1 {
        lemma_matches_split(s, i, w, seq!['"'], (escape(l[0]) + seq!['"']) + seq![']']);
        assert(s[i] == '"') by {
            assert(s.subrange(i, i + 1)[0] == '"');
        }
        lemma_matches_split(
            s,
            i + 1,
            (escape(l[0]) + seq!['"']) + seq![']'],
            escape(l[0]) + seq!['"'],
            seq![']'],
        );
        lemma_parse_escaped(s, i + 1, l[0]);
        let j = i + 1 + escape(l[0]).len() + 1;
        assert(s[j] == ']') by {
            assert(s.subrange(j, j + 1)[0] == ']');
        }
        assert(j < s.len());
        assert(seq![l[0]] =~= l);
        assert(j + 1 == i + enc_items(l).len() + 1);
    } else {
        let rest = l.drop_first();
        assert(enc_items(l) == enc_string(l[0]) + seq![','] + enc_items(rest));
        lemma_matches_split(
            s,
            i,
            w,
            seq!['"'],
            (escape(l[0]) + seq!['"']) + (seq![','] + (enc_items(rest) + seq![']'])),
        );
        assert(s[i] == '"') by {
            assert(s.subrange(i, i + 1)[0] == '"');
        }
        lemma_matches_split(
            s,
            i + 1,
            (escape(l[0]) + seq!['"']) + (seq![','] + (enc_items(rest) + seq![']'])),
            escape(l[0]) + seq!['"'],
            seq![','] + (enc_items(rest) + seq![']']),
        );
        lemma_parse_escaped(s, i + 1, l[0]);
        let j = i + 1 + escape(l[0]).len() + 1;
        lemma_matches_split(
            s,
            j,
            seq![','] + (enc_items(rest) + seq![']']),
            seq![','],
            enc_items(rest) + seq![']'],
        );
        assert(s[j] == ',') by {
            assert(s.subrange(j, j + 1)[0] == ',');
        }
        assert(j < s.len());
        lemma_parse_items_of_encoded(s, j + 1, rest);
        assert(seq![l[0]] + rest =~= l);
        assert(j + 1 + enc_items(rest).len() + 1 == i + enc_items(l).len() + 1);
    }
}

/// Reading a written array back yields its members.
proof fn lemma_parse_list_of_encoded(s: Seq<char>, i: int, l: Seq<Seq<char>>)
    requires
        matches_at(s, i, enc_list(l)),
    ensures
        parse_list(s, i) == Some((l, i + enc_list(l).len())),
{
    lemma_matches_split(s, i, enc_list(l), seq!['['], enc_items(l) + seq![']']);
    assert(s[i] == '[') by {
        assert(s.subrange(i, i + 1)[0] == '[');
    }
    if l.len() == 0 {
        assert(s[i + 1] == ']') by {
            assert(s.subrange(i + 1, i + 2)[0] == ']');
        }
        assert(l =~= Seq::<Seq<char>>::empty());
    } else {
        assert(enc_items(l).len() >= 1 && enc_items(l)[0] == '"') by {
            if l.len() == 1 {
                assert(enc_items(l) == enc_string(l[0]));
                assert(enc_string(l[0])[0] == '"');
            } else {
                assert(enc_items(l) == enc_string(l[0]) + seq![','] + enc_items(l.drop_first()));
                assert(enc_string(l[0])[0] == '"');
            }
        }
        assert(s[i + 1] == '"') by {
            assert(s.subrange(i + 1, i + 1 + (enc_items(l) + seq![']']).len())[0] == '"');
        }
        lemma_parse_items_of_encoded(s, i + 1, l);
    }
}

/// *Round-trip persistence.* Reading back a written checkpoint yields the
/// frontier in its order and the visited record exactly: for every frontier
/// sequence and visited sequence, parsing their encoding succeeds and
/// returns both unchanged.
pub proof fn lemma_checkpoint_round_trip(fr: Seq<Seq<char>>, vis: Seq<Seq<char>>)
    ensures
        parse_state(enc_state(fr, vis)) == Some((fr, vis)),
{
    let s = enc_state(fr, vis);
    let k1 = key_frontier();
    let k2 = key_visited();
    assert(s.subrange(0, s.len() as int) =~= s);
    lemma_matches_split(s, 0, s, k1, enc_list(fr) + (k2 + (enc_list(vis) + seq!['}'])));
    assert(matches_at(s, 0, k1));
    let i1 = k1.len() as int;
    lemma_matches_split(
        s,
        i1,
        enc_list(fr) + (k2 + (enc_list(vis) + seq!['}'])),
        enc_list(fr),
        k2 + (enc_list(vis) + seq!['}']),
    );
    lemma_parse_list_of_encoded(s, i1, fr);
    let j = i1 + enc_list(fr).len();
    lemma_matches_split(s, j, k2 + (enc_list(vis) + seq!['}']), k2, enc_list(vis) + seq!['}']);
    let i2 = j + k2.len();
    lemma_matches_split(s, i2, enc_list(vis) + seq!['}'], enc_list(vis), seq!['}']);
    lemma_parse_list_of_encoded(s, i2, vis);
    let k = i2 + enc_list(vis).len();
    assert(s[k] == '}') by {
        assert(s.subrange(k, k + 1)[0] == '}');
    }
    assert(k + 1 == s.len());
}

/// Appending one element to a string appends its written form.
proof fn lemma_escape_push(a: Seq<char>, x: char)
    ensures
        escape(a.push(x)) == escape(a) + esc_char(x),
    decreases a.len(),
{
    if a.len() == 0 {
        assert(a.push(x)[0] == x);
        assert(a.push(x).drop_first() =~= Seq::<char>::empty());
        assert(esc_char(x) + escape(Seq::<char>::empty()) =~= esc_char(x));
        assert(escape(a) + esc_char(x) =~= esc_char(x));
    } else {
        assert(a.push(x)[0] == a[0]);
        assert(a.push(x).drop_first() =~= a.drop_first().push(x));
        lemma_escape_push(a.drop_first(), x);
        assert(esc_char(a[0]) + (escape(a.drop_first()) + esc_char(x)) =~= (esc_char(a[0])
            + escape(a.drop_first())) + esc_char(x));
    }
}

/// Write the characters of `s`, escaped, onto `out`.
fn append_escaped(out: &mut String, s: &str)
    ensures
        final(out)@ == old(out)@ + escape(s@),
{
    let len: usize = s.unicode_len();
    let mut i: usize = 0;
    proof {
        assert(s@.subrange(0, 0) =~= Seq::<char>::empty());
        assert(old(out)@ + escape(Seq::<char>::empty()) =~= old(out)@);
    }
    while i < len
        invariant
            0 <= i <= len,
            len == s@.len(),
            out@ == old(out)@ + escape(s@.subrange(0, i as int)),
        decreases len - i,
    {
        let ghost pre = s@.subrange(0, i as int);
        let c = s.get_char(i);
        if c == '"' {
            out.append("\\\"");
            proof {
                reveal_strlit("\\\"");
                assert("\\\""@ =~= esc_char(c));
            }
        } else if c == '\\' {
            out.append("\\\\");
            proof {
                reveal_strlit("\\\\");
                assert("\\\\"@ =~= esc_char(c));
            }
        } else {
            let piece = s.substring_char(i, i + 1);
            out.append(piece);
            proof {
                assert(piece@ =~= esc_char(c));
            }
        }
        proof {
            lemma_escape_push(pre, c);
            assert(pre.push(c) =~= s@.subrange(0, i + 1));
            assert((old(out)@ + escape(pre)) + esc_char(c) =~= old(out)@ + (escape(pre) + esc_char(
                c,
            )));
        }
        i = i + 1;
    }
    proof {
        assert(s@.subrange(0, len as int) =~= s@);
    }
}

/// Write `s` as a JSON string, quoted and escaped, onto `out`.
fn append_quoted(out: &mut String, s: &str)
    ensures
        final(out)@ == old(out)@ + enc_string(s@),
{
    out.append("\"");
    append_escaped(out, s);
    out.append("\"");
    proof {
        reveal_strlit("\"");
        assert("\""@ =~= seq!['"']);
        assert(((old(out)@ + seq!['"']) + escape(s@)) + seq!['"'] =~= old(out)@ + (seq!['"']
            + escape(s@) + seq!['"']));
    }
}

/// Write the strings of `l` as a JSON array onto `out`.
fn append_list(out: &mut String, l: &Vec<String>)
    ensures
        final(out)@ == old(out)@ + enc_list(views_of(l@)),
{
    let ghost all = views_of(l@);
    out.append("[");
    proof {
        reveal_strlit("[");
        reveal_strlit("]");
        reveal_strlit(",");
        assert("["@ =~= seq!['[']);
        assert("]"@ =~= seq![']']);
        assert(","@ =~= seq![',']);
    }
    let ghost base = out@;
    let mut i: usize = 0;
    proof {
        assert(all.subrange(0, all.len() as int) =~= all);
    }
    while i < l.len()
        invariant
            0 <= i <= l@.len(),
            all == views_of(l@),
            base == old(out)@ + seq!['['],
            i < all.len() ==> out@ + enc_items(all.subrange(i as int, all.len() as int)) == base
                + enc_items(all),
            i == all.len() ==> out@ == base + enc_items(all),
        decreases l@.len() - i,
    {
        let ghost rest = all.subrange(i as int, all.len() as int);
        proof {
            assert(rest[0] == all[i as int]);
            assert(rest.drop_first() =~= all.subrange(i + 1, all.len() as int));
        }
        let ghost before = out@;
        append_quoted(out, l[i].as_str());
        if i + 1 < l.len() {
            out.append(",");
            proof {
                reveal_strlit(",");
                assert(","@ =~= seq![',']);
                assert(rest.len() >= 2);
                assert(enc_items(rest) == enc_string(all[i as int]) + seq![','] + enc_items(
                    rest.drop_first(),
                ));
                assert((before + enc_string(all[i as int])) + seq![','] =~= before + (enc_string(
                    all[i as int],
                ) + seq![',']));
                assert(all[i as int] == l@[i as int]@);
                assert(out@ == (before + enc_string(all[i as int])) + ","@);
                assert(out@ == (before + enc_string(all[i as int])) + seq![',']);
                assert(out@ + enc_items(rest.drop_first()) =~= before + ((enc_string(
                    all[i as int],
                ) + seq![',']) + enc_items(rest.drop_first())));
                assert((enc_string(all[i as int]) + seq![',']) + enc_items(rest.drop_first())
                    =~= enc_items(rest));
            }
        } else {
            proof {
                assert(rest.len() == 1);
                assert(enc_items(rest) == enc_string(all[i as int]));
            }
        }
        i = i + 1;
    }
    out.append("]");
    proof {
        if all.len() == 0 {
            assert(base + enc_items(all) =~= base);
        }
        assert((base + enc_items(all)) + seq![']'] =~= old(out)@ + (seq!['['] + enc_items(all)
            + seq![']']));
    }
}

/// The crawl state written as one checkpoint record: the frontier array
/// first, then the visited array, both in their stored order.
pub fn encode_state(state: &CrawlState) -> (r: String)
    ensures
        r@ == enc_state(state.frontier_view(), state.visited_seq()),
{
    let mut out = String::new();
    out.append("{\"urls_to_visit\":");
    proof {
        assert(Seq::<char>::empty() + key_frontier() =~= key_frontier());
    }
    append_list(&mut out, &state.frontier);
    out.append(",\"visited_urls\":");
    append_list(&mut out, &state.visited);
    out.append("}");
    proof {
        reveal_strlit("}");
        assert("}"@ =~= seq!['}']);
    }
    out
}

/// A read result with `pre` prepended to its content.
pub open spec fn with_prefix(pre: Seq<char>, r: Option<(Seq<char>, int)>) -> Option<
    (Seq<char>, int),
> {
    match r {
        Some((t, j)) => Some((pre + t, j)),
        None => None,
    }
}

/// A member-list read result with `pre` prepended to its members.
pub open spec fn with_members_prefix(
    pre: Seq<Seq<char>>,
    r: Option<(Seq<Seq<char>>, int)>,
) -> Option<(Seq<Seq<char>>, int)> {
    match r {
        Some((l, k)) => Some((pre + l, k)),
        None => None,
    }
}

/// Read a string body starting at `start` (just after the opening quote).
fn parse_string_at(s: &str, start: usize) -> (r: Option<(String, usize)>)
    ensures
        match r {
            Some(p) => parse_string_body(s@, start as int) == Some((p.0@, p.1 as int)) && start
                < p.1 <= s@.len(),
            None => parse_string_body(s@, start as int) is None,
        },
{
    let len: usize = s.unicode_len();
    if start > len {
        return None;
    }
    let mut i: usize = start;
    let mut out = String::new();
    proof {
        assert(Seq::<char>::empty() + parse_string_body(s@, start as int)->Some_0.0 =~= parse_string_body(s@, start as int)->Some_0.0);
    }
    while i < len
        invariant
            start <= i <= len,
            len == s@.len(),
            parse_string_body(s@, start as int) == with_prefix(
                out@,
                parse_string_body(s@, i as int),
            ),
        decreases len - i,
    {
        let c = s.get_char(i);
        if c == '"' {
            proof {
                assert(parse_string_body(s@, i as int) == Some(
                    (Seq::<char>::empty(), i + 1 as int),
                ));
                assert(out@ + Seq::<char>::empty() =~= out@);
            }
            return Some((out, i + 1));
        } else if c == '\\' {
            if i + 1 < len {
                let d = s.get_char(i + 1);
                if d == '"' || d == '\\' {
                    let piece = s.substring_char(i + 1, i + 2);
                    let ghost prev = out@;
                    out.append(piece);
                    proof {
                        assert(piece@ =~= seq![s@[i + 1]]);
                        if parse_string_body(s@, i + 2) is Some {
                            let (t, j) = parse_string_body(s@, i + 2)->Some_0;
                            assert(parse_string_body(s@, i as int) == Some(
                                (seq![s@[i + 1]] + t, j),
                            ));
                            assert(prev + (seq![s@[i + 1]] + t) =~= (prev + seq![s@[i + 1]]) + t);
                        }
                    }
                    i = i + 2;
                } else {
                    return None;
                }
            } else {
                return None;
            }
        } else {
            let piece = s.substring_char(i, i + 1);
            let ghost prev = out@;
            out.append(piece);
            proof {
                assert(piece@ =~= seq![s@[i as int]]);
                if parse_string_body(s@, i + 1) is Some {
                    let (t, j) = parse_string_body(s@, i + 1)->Some_0;
                    assert(parse_string_body(s@, i as int) == Some((seq![s@[i as int]] + t, j)));
                    assert(prev + (seq![s@[i as int]] + t) =~= (prev + seq![s@[i as int]]) + t);
                }
            }
            i = i + 1;
        }
    }
    None
}

/// Read the members of a non-empty array starting at `start` (at the opening
/// quote of the first member).
fn parse_items_at(s: &str, start: usize) -> (r: Option<(Vec<String>, usize)>)
    ensures
        match r {
            Some(p) => parse_items(s@, start as int) == Some((views_of(p.0@), p.1 as int))
                && start < p.1 <= s@.len(),
            None => parse_items(s@, start as int) is None,
        },
{
    let len: usize = s.unicode_len();
    if start > len {
        return None;
    }
    let mut cur: usize = start;
    let mut out: Vec<String> = Vec::new();
    proof {
        assert(views_of(out@) =~= Seq::<Seq<char>>::empty());
        if parse_items(s@, start as int) is Some {
            let (l, k) = parse_items(s@, start as int)->Some_0;
            assert(Seq::<Seq<char>>::empty() + l =~= l);
        }
    }
    loop
        invariant
            start <= cur,
            cur <= len + 1,
            len == s@.len(),
            parse_items(s@, start as int) == with_members_prefix(
                views_of(out@),
                parse_items(s@, cur as int),
            ),
        decreases len - cur,
    {
        if cur >= len {
            return None;
        }
        if s.get_char(cur) != '"' {
            return None;
        }
        match parse_string_at(s, cur + 1) {
            None => {
                return None;
            },
            Some((u, j)) => {
                let ghost prevs = views_of(out@);
                let ghost uview = u@;
                out.push(u);
                proof {
                    assert(views_of(out@) =~= prevs.push(uview));
                }
                if j < len && s.get_char(j) == ',' {
                    proof {
                        if parse_items(s@, j + 1) is Some {
                            let (l2, k2) = parse_items(s@, j + 1)->Some_0;
                            assert(parse_items(s@, cur as int) == Some((seq![uview] + l2, k2)));
                            assert(prevs + (seq![uview] + l2) =~= prevs.push(uview) + l2);
                        } else {
                            assert(parse_items(s@, cur as int) is None);
                        }
                    }
                    cur = j + 1;
                } else if j < len && s.get_char(j) == ']' {
                    proof {
                        assert(parse_items(s@, cur as int) == Some((seq![uview], j + 1 as int)));
                        assert(prevs + seq![uview] =~= prevs.push(uview));
                    }
                    return Some((out, j + 1));
                } else {
                    return None;
                }
            },
        }
    }
}

/// Read a string array starting at `start` (at the opening bracket).
fn parse_list_at(s: &str, start: usize) -> (r: Option<(Vec<String>, usize)>)
    ensures
        match r {
            Some(p) => parse_list(s@, start as int) == Some((views_of(p.0@), p.1 as int)) && p.1
                <= s@.len(),
            None => parse_list(s@, start as int) is None,
        },
{
    let len: usize = s.unicode_len();
    if start >= len {
        return None;
    }
    if start + 1 >= len {
        return None;
    }
    if s.get_char(start) != '[' {
        return None;
    }
    if s.get_char(start + 1) == ']' {
        let empty_vec: Vec<String> = Vec::new();
        proof {
            assert(views_of(empty_vec@) =~= Seq::<Seq<char>>::empty());
        }
        return Some((empty_vec, start + 2));
    }
    parse_items_at(s, start + 1)
}

/// Whether the characters of `p` stand in `s` at position `i`.
fn matches_at_str(s: &str, i: usize, p: &str) -> (r: bool)
    ensures
        r == matches_at(s@, i as int, p@),
{
    let slen: usize = s.unicode_len();
    let plen: usize = p.unicode_len();
    if plen > slen || i > slen - plen {
        return false;
    }
    let mut k: usize = 0;
    while k < plen
        invariant
            0 <= k <= plen,
            slen == s@.len(),
            plen == p@.len(),
            i + plen <= slen,
            forall|m: int| 0 <= m < k ==> s@[i + m] == p@[m],
        decreases plen - k,
    {
        if s.get_char(i + k) != p.get_char(k) {
            proof {
                assert(s@.subrange(i as int, i + plen)[k as int] == s@[i + k]);
            }
            return false;
        }
        k = k + 1;
    }
    proof {
        assert(s@.subrange(i as int, i + plen) =~= p@);
    }
    true
}

/// Read a whole checkpoint record back into a crawl state, or report that
/// the text is not one.
pub fn decode_state(text: &str) -> (r: Option<CrawlState>)
    ensures
        match r {
            Some(st) => parse_state(text@) == Some((st.frontier_view(), st.visited_seq())),
            None => parse_state(text@) is None,
        },
{
    let len: usize = text.unicode_len();
    if !matches_at_str(text, 0, "{\"urls_to_visit\":") {
        return None;
    }
    let n1: usize = "{\"urls_to_visit\":".unicode_len();
    match parse_list_at(text, n1) {
        None => None,
        Some((frontier, j)) => {
            if !matches_at_str(text, j, ",\"visited_urls\":") {
                return None;
            }
            let n2: usize = ",\"visited_urls\":".unicode_len();
            match parse_list_at(text, j + n2) {
                None => None,
                Some((visited, k)) => {
                    if k < len && text.get_char(k) == '}' && k + 1 == len {
                        Some(CrawlState { frontier, visited })
                    } else {
                        None
                    }
                },
            }
        },
    }
}

/// Whether no two strings of `v` have the same characters.
fn vec_no_duplicates(v: &Vec<String>) -> (r: bool)
    ensures
        r == views_of(v@).no_duplicates(),
{
    let mut i: usize = 0;
    while i < v.len()
        invariant
            0 <= i <= v@.len(),
            forall|a: int, b: int| 0 <= a < b < i ==> views_of(v@)[a] != views_of(v@)[b],
        decreases v@.len() - i,
    {
        let mut j: usize = 0;
        while j < i
            invariant
                0 <= j <= i < v@.len(),
                forall|a: int, b: int| 0 <= a < b < i ==> views_of(v@)[a] != views_of(v@)[b],
                forall|b: int| 0 <= b < j ==> views_of(v@)[b] != views_of(v@)[i as int],
            decreases i - j,
        {
            if v[j] == v[i] {
                proof {
                    assert(views_of(v@)[j as int] == views_of(v@)[i as int]);
                }
                return false;
            }
            j = j + 1;
        }
        i = i + 1;
    }
    true
}

/// Restore a crawl state from checkpoint text. Text that is not exactly one
/// record, or a record that repeats a URL within either list, yields the
/// empty state instead of an ill-formed one.
pub fn restore_state(text: &str) -> (r: CrawlState)
    ensures
        r.wf(),
        (match parse_state(text@) {
            Some(p) => {
                if p.0.no_duplicates() && p.1.no_duplicates() {
                    r.frontier_view() == p.0 && r.visited_seq() == p.1
                } else {
                    r.frontier_view().len() == 0 && r.visited_seq().len() == 0
                }
            },
            None => r.frontier_view().len() == 0 && r.visited_seq().len() == 0,
        }),
{
    match decode_state(text) {
        Some(st) => {
            let frontier_ok = vec_no_duplicates(&st.frontier);
            let visited_ok = vec_no_duplicates(&st.visited);
            if frontier_ok && visited_ok {
                st
            } else {
                CrawlState::empty()
            }
        },
        None => CrawlState::empty(),
    }
}

} // verus!
