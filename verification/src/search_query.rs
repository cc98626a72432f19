//! The request that `/bsearch` stands for.
use vstd::prelude::*;

use crate::paste::{control, is_control};
use crate::text::{
    chars_of, is_space, join_from, join_seq, parse_up_to, parsed_seq, same, space_char, text_bytes, texts,
};
use crate::times::{normalize_rfc3339, rfc3339_utc};

verus! {

broadcast use vstd::string::group_string_axioms;

/// The most results of a search.
pub const RESULTS_MAX: u64 = 100;

/// The most bytes of a line on the wire.
pub const LINE_BYTES: usize = 512;

pub const USAGE: &'static str =
    "Usage: /bsearch <target> [-from nick] [-after timestamp] [-before timestamp] [-limit 1..100] -- <text> | /bsearch cancel";

pub const UNKNOWN_SELECTOR: &'static str = "Unknown search selector; use -- before the search text";

pub const MISSING_VALUE: &'static str = "Missing search selector value";

pub const DUPLICATE_SELECTOR: &'static str = "Duplicate search selector";

pub const BAD_LIMIT: &'static str = "Search limit must be between 1 and 100";

pub const BAD_TIMESTAMP: &'static str = "Invalid search timestamp; use RFC3339";

pub const CONTROL_CHARACTERS: &'static str = "Search selectors cannot contain control characters";

pub const TOO_LONG: &'static str = "Search request exceeds the IRC line limit";

/// One part of a search request.
#[derive(Debug)]
pub struct Attr {
    pub key: String,
    pub value: String,
}

/// The model of an [`Attr`].
pub struct AttrV {
    pub key: Seq<char>,
    pub value: Seq<char>,
}

impl View for Attr {
    type V = AttrV;

    open spec fn view(&self) -> AttrV {
        AttrV { key: self.key@, value: self.value@ }
    }
}

/// The models of a list of parts.
pub open spec fn attr_views(v: Seq<Attr>) -> Seq<AttrV> {
    v.map_values(|a: Attr| a@)
}

/// The parts of a search request and how many results it asks for.
pub struct SelectorsV {
    pub attrs: Seq<AttrV>,
    pub limit: u64,
}

/// The part that a selector stands for.
pub open spec fn selector_key(arg: Seq<char>) -> Option<Seq<char>> {
    if arg == "-from"@ {
        Some("from"@)
    } else if arg == "-after"@ {
        Some("after"@)
    } else if arg == "-before"@ {
        Some("before"@)
    } else if arg == "-limit"@ {
        Some("limit"@)
    } else {
        None
    }
}

/// A part is there already.
pub open spec fn has_key(attrs: Seq<AttrV>, key: Seq<char>) -> bool {
    exists|i: int| 0 <= i < attrs.len() && (#[trigger] attrs[i]).key == key
}

/// How many results are asked for, where the text is a fitting number.
pub open spec fn limit_value(value: Seq<char>) -> Option<u64> {
    match parsed_seq(value, RESULTS_MAX as nat) {
        Some(n) if n >= 1 => Some(n as u64),
        _ => None,
    }
}

/// One selector with its value.
pub open spec fn selected(s: SelectorsV, key: Seq<char>, value: Seq<char>) -> Result<
    SelectorsV,
    Seq<char>,
> {
    if has_key(s.attrs, key) {
        Err(DUPLICATE_SELECTOR@)
    } else if key == "limit"@ {
        match limit_value(value) {
            Some(n) => Ok(SelectorsV { attrs: s.attrs.push(AttrV { key, value }), limit: n }),
            None => Err(BAD_LIMIT@),
        }
    } else if key == "after"@ || key == "before"@ {
        match rfc3339_utc(value) {
            Some(time) => Ok(SelectorsV { attrs: s.attrs.push(AttrV { key, value: time }), ..s }),
            None => Err(BAD_TIMESTAMP@),
        }
    } else {
        Ok(SelectorsV { attrs: s.attrs.push(AttrV { key, value }), ..s })
    }
}

/// What the arguments from `i` on select.
pub open spec fn selectors(args: Seq<Seq<char>>, i: int, s: SelectorsV) -> Result<SelectorsV, Seq<char>>
    decreases args.len() - i,
{
    if i >= args.len() || i < 0 {
        Ok(s)
    } else if args[i] == "--"@ {
        Ok(
            SelectorsV {
                attrs: s.attrs.push(AttrV { key: "text"@, value: join_seq(args.skip(i + 1), " "@) }),
                ..s
            },
        )
    } else {
        match selector_key(args[i]) {
            None => Err(UNKNOWN_SELECTOR@),
            Some(key) => if i + 1 >= args.len() || args[i + 1].len() == 0 {
                Err(MISSING_VALUE@)
            } else {
                match selected(s, key, args[i + 1]) {
                    Err(e) => Err(e),
                    Ok(next) => selectors(args, i + 2, next),
                }
            },
        }
    }
}

/// A value as it is written into a request.
pub open spec fn escaped(s: Seq<char>) -> Seq<char>
    decreases s.len(),
{
    if s.len() == 0 {
        s
    } else {
        let init = escaped(s.drop_last());
        if s.last() == '\\' {
            init.push('\\').push('\\')
        } else if s.last() == ';' {
            init.push('\\').push(':')
        } else if s.last() == ' ' {
            init.push('\\').push('s')
        } else {
            init.push(s.last())
        }
    }
}

/// The parts as they are written into a request.
pub open spec fn written(attrs: Seq<AttrV>) -> Seq<char>
    decreases attrs.len(),
{
    if attrs.len() == 0 {
        Seq::empty()
    } else {
        let a = attrs.last();
        let part = a.key + seq!['='] + escaped(a.value);
        if attrs.len() == 1 {
            part
        } else {
            written(attrs.drop_last()) + seq![';'] + part
        }
    }
}

/// A text holds a control character.
pub open spec fn has_control(s: Seq<char>) -> bool {
    exists|i: int| 0 <= i < s.len() && control(#[trigger] s[i])
}

/// A part holds a control character.
pub open spec fn any_control(attrs: Seq<AttrV>) -> bool {
    exists|i: int| 0 <= i < attrs.len() && has_control((#[trigger] attrs[i]).value)
}

/// A text can be searched in.
pub open spec fn searchable(target: Seq<char>) -> bool {
    &&& target.len() > 0
    &&& target[0] != ':'
    &&& forall|i: int| 0 <= i < target.len() ==> !space_char(#[trigger] target[i])
}

/// A request to search.
#[derive(Debug)]
pub struct Query {
    pub target: String,
    pub limit: u64,
    /// The single parameter of the request.
    pub attributes: String,
}

/// The model of a [`Query`].
pub struct QueryV {
    pub target: Seq<char>,
    pub limit: u64,
    pub attributes: Seq<char>,
}

impl View for Query {
    type V = QueryV;

    open spec fn view(&self) -> QueryV {
        QueryV { target: self.target@, limit: self.limit, attributes: self.attributes@ }
    }
}

/// The request that arguments stand for, or what is wrong with them.
pub open spec fn query_of(args: Seq<Seq<char>>) -> Result<QueryV, Seq<char>> {
    if args.len() == 0 || !searchable(args[0]) {
        Err(USAGE@)
    } else {
        let start = SelectorsV {
            attrs: seq![AttrV { key: "in"@, value: args[0] }],
            limit: RESULTS_MAX,
        };
        match selectors(args, 1, start) {
            Err(e) => Err(e),
            Ok(s) => if any_control(s.attrs) {
                Err(CONTROL_CHARACTERS@)
            } else if text_bytes("SEARCH "@ + written(s.attrs) + "\r\n"@) > LINE_BYTES {
                Err(TOO_LONG@)
            } else {
                Ok(QueryV { target: args[0], limit: s.limit, attributes: written(s.attrs) })
            },
        }
    }
}

/// Whether a text can be searched in.
fn is_searchable(target: &str) -> (r: bool)
    ensures
        r == searchable(target@),
{
    let v = chars_of(target);
    if v.len() == 0 || v[0] == ':' {
        return false;
    }
    let mut i: usize = 0;
    while i < v.len()
        invariant
            v@ == target@,
            i <= v@.len(),
            forall|j: int| 0 <= j < i ==> !space_char(#[trigger] target@[j]),
        decreases v@.len() - i,
    {
        if is_space(v[i]) {
            assert(space_char(target@[i as int]));
            return false;
        }
        i = i + 1;
    }
    true
}

/// Whether a part is there already.
fn key_taken(attrs: &Vec<Attr>, key: &str) -> (r: bool)
    ensures
        r == has_key(attr_views(attrs@), key@),
{
    let ghost all = attr_views(attrs@);
    let mut i: usize = 0;
    while i < attrs.len()
        invariant
            i <= attrs@.len(),
            all == attr_views(attrs@),
            forall|j: int| 0 <= j < i ==> (#[trigger] all[j]).key != key@,
        decreases attrs@.len() - i,
    {
        assert(all[i as int] == attrs@[i as int]@);
        if same(attrs[i].key.as_str(), key) {
            return true;
        }
        i = i + 1;
    }
    false
}

/// Whether a part holds a control character.
fn controls_in(attrs: &Vec<Attr>) -> (r: bool)
    ensures
        r == any_control(attr_views(attrs@)),
{
    let ghost all = attr_views(attrs@);
    let mut i: usize = 0;
    while i < attrs.len()
        invariant
            i <= attrs@.len(),
            all == attr_views(attrs@),
            forall|j: int| 0 <= j < i ==> !has_control((#[trigger] all[j]).value),
        decreases attrs@.len() - i,
    {
        assert(all[i as int] == attrs@[i as int]@);
        let v = chars_of(attrs[i].value.as_str());
        let mut k: usize = 0;
        while k < v.len()
            invariant
                v@ == all[i as int].value,
                i < attrs@.len(),
                all == attr_views(attrs@),
                k <= v@.len(),
                forall|j: int| 0 <= j < k ==> !control(#[trigger] v@[j]),
            decreases v@.len() - k,
        {
            if is_control(v[k]) {
                assert(control(all[i as int].value[k as int]));
                assert(has_control(all[i as int].value));
                return true;
            }
            k = k + 1;
        }
        i = i + 1;
    }
    false
}

/// A value as it is written into a request.
fn escape(s: &str) -> (r: String)
    ensures
        r@ == escaped(s@),
{
    let v = chars_of(s);
    let mut r = String::new();
    let mut i: usize = 0;
    assert(v@.take(0) =~= Seq::<char>::empty());
    while i < v.len()
        invariant
            v@ == s@,
            i <= v@.len(),
            r@ == escaped(v@.take(i as int)),
        decreases v@.len() - i,
    {
        assert(v@.take(i + 1).drop_last() =~= v@.take(i as int));
        assert(v@.take(i + 1).last() == v@[i as int]);
        let c = v[i];
        if c == '\\' {
            r.push('\\');
            r.push('\\');
        } else if c == ';' {
            r.push('\\');
            r.push(':');
        } else if c == ' ' {
            r.push('\\');
            r.push('s');
        } else {
            r.push(c);
        }
        i = i + 1;
    }
    assert(v@.take(v@.len() as int) =~= v@);
    r
}

/// The parts as they are written into a request.
fn write_attrs(attrs: &Vec<Attr>) -> (r: String)
    ensures
        r@ == written(attr_views(attrs@)),
{
    let ghost all = attr_views(attrs@);
    let mut r = String::new();
    let mut i: usize = 0;
    assert(all.take(0) =~= Seq::<AttrV>::empty());
    while i < attrs.len()
        invariant
            i <= attrs@.len(),
            all == attr_views(attrs@),
            r@ == written(all.take(i as int)),
        decreases attrs@.len() - i,
    {
        assert(all.take(i + 1).drop_last() =~= all.take(i as int));
        assert(all.take(i + 1).last() == attrs@[i as int]@);
        let ghost was = r@;
        if i > 0 {
            r.push(';');
        }
        let ghost head = r@;
        r.append(attrs[i].key.as_str());
        r.push('=');
        r.append(escape(attrs[i].value.as_str()).as_str());
        proof {
            let a = all[i as int];
            let part = a.key + seq!['='] + escaped(a.value);
            assert(r@ =~= head + part);
            if i > 0 {
                assert(r@ =~= was + seq![';'] + part);
            } else {
                assert(r@ =~= part);
            }
        }
        i = i + 1;
    }
    assert(all.take(all.len() as int) =~= all);
    r
}

/// The number of bytes of a text in UTF-8; a count past the largest value counts as that.
fn bytes_of(s: &str) -> (r: usize)
    ensures
        r == text_bytes(s@) || (r == usize::MAX && text_bytes(s@) > usize::MAX),
{
    let v = chars_of(s);
    let mut r: usize = 0;
    let mut over = false;
    let mut i: usize = 0;
    assert(v@.take(0) =~= Seq::<char>::empty());
    while i < v.len()
        invariant
            v@ == s@,
            i <= v@.len(),
            if over {
                r == usize::MAX && text_bytes(v@.take(i as int)) > usize::MAX
            } else {
                r == text_bytes(v@.take(i as int))
            },
        decreases v@.len() - i,
    {
        assert(v@.take(i + 1).drop_last() =~= v@.take(i as int));
        assert(v@.take(i + 1).last() == v@[i as int]);
        let k: usize = crate::text::char_len(v[i]);
        if !over {
            if r > usize::MAX - k {
                over = true;
                r = usize::MAX;
            } else {
                r = r + k;
            }
        }
        i = i + 1;
    }
    assert(v@.take(v@.len() as int) =~= v@);
    r
}

/// Adds one part.
fn push_attr(attrs: &mut Vec<Attr>, key: &str, value: String)
    ensures
        attr_views(final(attrs)@) == attr_views(old(attrs)@).push(AttrV { key: key@, value: value@ }),
{
    let ghost was = attr_views(attrs@);
    let a = Attr { key: key.to_string(), value };
    let ghost av = a@;
    attrs.push(a);
    assert(attr_views(attrs@) =~= was.push(av));
}

/// Takes one selector with its value.
fn select(attrs: &mut Vec<Attr>, limit: &mut u64, key: &str, value: &str) -> (r: Result<(), &'static str>)
    ensures
        match r {
            Ok(_) => selected(
                SelectorsV { attrs: attr_views(old(attrs)@), limit: *old(limit) },
                key@,
                value@,
            ) == Ok::<SelectorsV, Seq<char>>(
                SelectorsV { attrs: attr_views(final(attrs)@), limit: *final(limit) },
            ),
            Err(e) => selected(
                SelectorsV { attrs: attr_views(old(attrs)@), limit: *old(limit) },
                key@,
                value@,
            ) == Err::<SelectorsV, Seq<char>>(e@),
        },
{
    if key_taken(attrs, key) {
        return Err(DUPLICATE_SELECTOR);
    }
    if same(key, "limit") {
        match parse_up_to(value, RESULTS_MAX) {
            None => {
                return Err(BAD_LIMIT);
            },
            Some(n) => {
                if n < 1 {
                    return Err(BAD_LIMIT);
                }
                *limit = n;
            },
        }
    }
    let text = if same(key, "after") || same(key, "before") {
        proof {
            reveal_strlit("after");
            reveal_strlit("before");
            reveal_strlit("limit");
            assert("limit"@[0] == 'l' && "after"@[0] == 'a' && "before"@[0] == 'b');
        }
        match normalize_rfc3339(value) {
            None => {
                return Err(BAD_TIMESTAMP);
            },
            Some(time) => time,
        }
    } else {
        value.to_string()
    };
    push_attr(attrs, key, text);
    Ok(())
}

/// The request that the arguments of `/bsearch` stand for, or what is wrong with them.
pub fn query(args: &Vec<String>) -> (r: Result<Query, &'static str>)
    ensures
        match r {
            Ok(q) => query_of(texts(args@)) == Ok::<QueryV, Seq<char>>(q@),
            Err(e) => query_of(texts(args@)) == Err::<QueryV, Seq<char>>(e@),
        },
{
    let ghost all = texts(args@);
    assert(all.len() == args@.len());
    if args.len() == 0 {
        return Err(USAGE);
    }
    assert(all[0] == args@[0]@);
    if !is_searchable(args[0].as_str()) {
        return Err(USAGE);
    }
    let mut attrs: Vec<Attr> = Vec::new();
    push_attr(&mut attrs, "in", args[0].clone());
    let mut limit: u64 = RESULTS_MAX;
    let mut i: usize = 1;
    let mut open = true;
    let ghost start = SelectorsV { attrs: seq![AttrV { key: "in"@, value: all[0] }], limit: RESULTS_MAX };
    assert(attr_views(attrs@) =~= start.attrs);
    while open && i < args.len()
        invariant
            1 <= i <= args@.len(),
            all == texts(args@),
            all.len() == args@.len(),
            searchable(all[0]),
            start == (SelectorsV {
                attrs: seq![AttrV { key: "in"@, value: all[0] }],
                limit: RESULTS_MAX,
            }),
            selectors(all, 1, start) == (if open {
                selectors(all, i as int, SelectorsV { attrs: attr_views(attrs@), limit })
            } else {
                Ok(SelectorsV { attrs: attr_views(attrs@), limit })
            }),
        decreases args@.len() - i + (if open { 1int } else { 0int }),
    {
        let arg = args[i].as_str();
        assert(all[i as int] == arg@);
        if same(arg, "--") {
            let text = join_from(args, i + 1, " ");
            assert(texts(args@.skip(i + 1)) =~= all.skip(i + 1));
            push_attr(&mut attrs, "text", text);
            open = false;
        } else {
            let key = if same(arg, "-from") {
                "from"
            } else if same(arg, "-after") {
                "after"
            } else if same(arg, "-before") {
                "before"
            } else if same(arg, "-limit") {
                "limit"
            } else {
                return Err(UNKNOWN_SELECTOR);
            };
            if i + 1 >= args.len() || args[i + 1].as_str().is_empty() {
                return Err(MISSING_VALUE);
            }
            assert(all[i + 1] == args@[i + 1]@);
            match select(&mut attrs, &mut limit, key, args[i + 1].as_str()) {
                Err(e) => {
                    return Err(e);
                },
                Ok(_) => {},
            }
            i = i + 2;
        }
    }
    if controls_in(&attrs) {
        return Err(CONTROL_CHARACTERS);
    }
    let attributes = write_attrs(&attrs);
    let line = crate::text::concat3("SEARCH ", attributes.as_str(), "\r\n");
    if bytes_of(line.as_str()) > LINE_BYTES {
        return Err(TOO_LONG);
    }
    Ok(Query { target: args[0].clone(), limit, attributes })
}

/// What one character is written as.
pub open spec fn written_char(c: char) -> Seq<char> {
    if c == '\\' {
        seq!['\\', '\\']
    } else if c == ';' {
        seq!['\\', ':']
    } else if c == ' ' {
        seq!['\\', 's']
    } else {
        seq![c]
    }
}

proof fn lemma_escaped_first(s: Seq<char>)
    requires
        s.len() > 0,
    ensures
        escaped(s) == written_char(s[0]) + escaped(s.skip(1)),
    decreases s.len(),
{
    let rest = s.drop_last();
    let tail = s.skip(1);
    if s.len() == 1 {
        assert(rest =~= Seq::<char>::empty());
        assert(tail =~= Seq::<char>::empty());
        assert(escaped(rest) =~= Seq::<char>::empty());
        assert(escaped(s) =~= written_char(s[0]) + escaped(tail));
    } else {
        lemma_escaped_first(rest);
        assert(rest.skip(1) =~= tail.drop_last());
        assert(tail.last() == s.last());
        assert(escaped(s) =~= written_char(s[0]) + escaped(tail));
    }
}

/// A value is read back as it was written: different values are written differently, and what is written holds
/// neither a blank nor a semicolon, which would end it.
pub proof fn values_are_read_back(a: Seq<char>, b: Seq<char>)
    ensures
        escaped(a) == escaped(b) ==> a == b,
        !escaped(a).contains(' '),
        !escaped(a).contains(';'),
    decreases a.len(),
{
    if a.len() > 0 {
        lemma_escaped_first(a);
        let w = written_char(a[0]);
        let x = a.skip(1);
        if b.len() > 0 {
            lemma_escaped_first(b);
            let v = written_char(b[0]);
            let y = b.skip(1);
            values_are_read_back(x, y);
            if escaped(a) == escaped(b) {
                assert((w + escaped(x))[0] == w[0] && (v + escaped(y))[0] == v[0]);
                if w[0] == '\\' {
                    assert((w + escaped(x))[1] == w[1] && (v + escaped(y))[1] == v[1]);
                }
                assert(a[0] == b[0]);
                assert(escaped(x) =~= (w + escaped(x)).skip(w.len() as int));
                assert(escaped(y) =~= (v + escaped(y)).skip(v.len() as int));
                assert(a =~= seq![a[0]] + x);
                assert(b =~= seq![b[0]] + y);
            }
        } else {
            values_are_read_back(x, b);
            assert(escaped(a).len() > 0);
            assert(escaped(b).len() == 0);
        }
        assert forall|i: int| 0 <= i < escaped(a).len() implies escaped(a)[i] != ' ' && escaped(a)[i] != ';' by {
            if i >= w.len() {
                assert(escaped(a)[i] == escaped(x)[i - w.len()]);
                assert(escaped(x).contains(escaped(x)[i - w.len()]));
            }
        }
    } else {
        if b.len() > 0 {
            lemma_escaped_first(b);
        } else {
            assert(a =~= b);
        }
    }
}

/// A plain search asks for what was typed: behind the conversation and two dashes, every word is part of the
/// text that is searched for, in that conversation.
pub proof fn a_plain_search_asks_for_its_words(target: Seq<char>, words: Seq<Seq<char>>)
    requires
        target.len() > 0,
        target[0] != ':',
        forall|i: int| 0 <= i < target.len() ==> !space_char(#[trigger] target[i]),
    ensures
        query_of(seq![target, "--"@] + words) matches Ok(q) ==> q.target == target && q.attributes == "in"@ + seq![
            '=',
        ] + escaped(target) + seq![';'] + ("text"@ + seq!['='] + escaped(join_seq(words, seq![' ']))) && q.limit
            == RESULTS_MAX,
        query_of(seq![target, "--"@] + words) matches Err(e) ==> e == CONTROL_CHARACTERS@ || e == TOO_LONG@,
{
    reveal_strlit(" ");
    assert(" "@ =~= seq![' ']);
    let args = seq![target, "--"@] + words;
    assert(args[0] == target && args[1] == "--"@);
    assert(args.skip(2) =~= words);
    let first = AttrV { key: "in"@, value: target };
    let start = SelectorsV { attrs: seq![first], limit: RESULTS_MAX };
    let text = AttrV { key: "text"@, value: join_seq(words, " "@) };
    let all = seq![first].push(text);
    assert(selectors(args, 1, start) == Ok::<SelectorsV, Seq<char>>(
        SelectorsV { attrs: all, limit: RESULTS_MAX },
    ));
    assert(all.drop_last() =~= seq![first]);
    assert(all.last() == text);
    let one = seq![first];
    assert(one.last() == first && one.len() == 1);
    assert(written(one) == "in"@ + seq!['='] + escaped(target));
    assert(written(all) == written(all.drop_last()) + seq![';'] + ("text"@ + seq!['='] + escaped(text.value)));
}

} // verus!
