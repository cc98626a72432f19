//! Command lines and the expansion of aliases.
use vstd::prelude::*;

use crate::text::{
    chars_of, has_char, join, join_from, join_seq, lower, lower_seq, pieces, separators_part_a_text,
    slice_text, split, texts, trim, trim_seq, unparted_text_is_one_piece, words, words_seq,
};

verus! {

broadcast use vstd::string::group_string_axioms;

/// How deep aliases may expand to aliases.
pub const MAX_ALIAS_DEPTH: u8 = 10;

/// What an alias may refer to besides its arguments.
#[derive(Debug)]
pub struct AliasContext {
    pub channel: String,
    pub nick: String,
    pub server: String,
}

/// The values that a template's placeholders stand for.
pub struct Values {
    pub args: Seq<Seq<char>>,
    pub channel: Seq<char>,
    pub nick: Seq<char>,
    pub server: Seq<char>,
}

/// One decimal digit.
pub open spec fn is_digit(c: char) -> bool {
    '0' <= c <= '9'
}

/// The value of a one-letter placeholder.
pub open spec fn letter_value(c: char, v: Values) -> Option<Seq<char>> {
    if c == 'C' || c == 'T' {
        Some(v.channel)
    } else if c == 'N' {
        Some(v.nick)
    } else if c == 'S' {
        Some(v.server)
    } else if c == '*' {
        Some(join_seq(v.args, seq![' ']))
    } else {
        None
    }
}

/// The argument at a position, empty where there is none.
pub open spec fn arg_value(n: nat, v: Values) -> Seq<char> {
    if n < v.args.len() {
        v.args[n as int]
    } else {
        Seq::empty()
    }
}

/// The arguments from a position on.
pub open spec fn range_value(n: nat, v: Values) -> Seq<char> {
    if n < v.args.len() {
        join_seq(v.args.skip(n as int), seq![' '])
    } else {
        Seq::empty()
    }
}

/// What the placeholder at the beginning of `t`, right behind a dollar sign, stands for, and how
/// many characters it takes.
pub open spec fn placeholder(t: Seq<char>, v: Values) -> Option<(Seq<char>, nat)> {
    if t.len() == 0 {
        None
    } else if is_digit(t[0]) {
        let n = (t[0] as nat - 48) as nat;
        if t.len() >= 2 && t[1] == '-' {
            Some((range_value(n, v), 2))
        } else {
            Some((arg_value(n, v), 1))
        }
    } else if t[0] == '{' {
        if t.len() >= 3 && t[2] == '}' {
            if is_digit(t[1]) {
                Some((arg_value((t[1] as nat - 48) as nat, v), 3))
            } else {
                match letter_value(t[1], v) {
                    Some(value) => Some((value, 3)),
                    None => None,
                }
            }
        } else {
            None
        }
    } else {
        match letter_value(t[0], v) {
            Some(value) => Some((value, 1)),
            None => None,
        }
    }
}

/// A template with its placeholders replaced; a dollar sign before anything else stays.
pub open spec fn replaced(t: Seq<char>, v: Values) -> Seq<char>
    decreases t.len(),
{
    if t.len() == 0 {
        Seq::empty()
    } else if t[0] != '$' {
        seq![t[0]] + replaced(t.skip(1), v)
    } else {
        match placeholder(t.skip(1), v) {
            Some((value, len)) => value + replaced(t.skip(1 + len as int), v),
            None => seq!['$'] + replaced(t.skip(1), v),
        }
    }
}

/// A template without any placeholder takes all arguments at its end.
pub open spec fn completed(template: Seq<char>) -> Seq<char> {
    if template.contains('$') {
        template
    } else {
        template + " $*"@
    }
}

/// The line that an alias stands for.
pub open spec fn expanded(template: Seq<char>, v: Values) -> Seq<char> {
    trim_seq(replaced(completed(template), v))
}

/// The value of a one-letter placeholder.
fn letter(c: char, args: &Vec<String>, context: &AliasContext) -> (r: Option<String>)
    ensures
        crate::text::opt_text(r) == letter_value(c, values(args@, *context)),
{
    if c == 'C' || c == 'T' {
        Some(context.channel.clone())
    } else if c == 'N' {
        Some(context.nick.clone())
    } else if c == 'S' {
        Some(context.server.clone())
    } else if c == '*' {
        proof {
            reveal_strlit(" ");
            assert(" "@ =~= seq![' ']);
        }
        Some(join(args, " "))
    } else {
        None
    }
}

/// The values of a set of arguments in a context.
pub open spec fn values(args: Seq<String>, context: AliasContext) -> Values {
    Values {
        args: texts(args),
        channel: context.channel@,
        nick: context.nick@,
        server: context.server@,
    }
}

/// The argument at a position.
fn argument(n: usize, args: &Vec<String>, context: &AliasContext) -> (r: String)
    ensures
        r@ == arg_value(n as nat, values(args@, *context)),
{
    if n < args.len() {
        args[n].clone()
    } else {
        String::new()
    }
}

/// The arguments from a position on.
fn arguments_from(n: usize, args: &Vec<String>, context: &AliasContext) -> (r: String)
    ensures
        r@ == range_value(n as nat, values(args@, *context)),
{
    if n < args.len() {
        proof {
            reveal_strlit(" ");
            assert(" "@ =~= seq![' ']);
            assert(texts(args@.skip(n as int)) =~= texts(args@).skip(n as int));
        }
        join_from(args, n, " ")
    } else {
        String::new()
    }
}

/// The value and the length of the placeholder at `i`.
fn placeholder_at(t: &Vec<char>, i: usize, args: &Vec<String>, context: &AliasContext) -> (r: Option<
    (String, usize),
>)
    requires
        i <= t@.len(),
    ensures
        match r {
            Some((value, len)) => placeholder(t@.skip(i as int), values(args@, *context)) == Some(
                (value@, len as nat),
            ) && i + len <= t@.len() && len > 0,
            None => placeholder(t@.skip(i as int), values(args@, *context)) is None,
        },
{
    let n: usize = t.len();
    if i == n {
        return None;
    }
    let c = t[i];
    if '0' <= c && c <= '9' {
        let d: usize = (c as usize) - 48;
        if n - i >= 2 && t[i + 1] == '-' {
            Some((arguments_from(d, args, context), 2))
        } else {
            Some((argument(d, args, context), 1))
        }
    } else if c == '{' {
        if n - i >= 3 && t[i + 2] == '}' {
            let inner = t[i + 1];
            if '0' <= inner && inner <= '9' {
                let d: usize = (inner as usize) - 48;
                Some((argument(d, args, context), 3))
            } else {
                match letter(inner, args, context) {
                    Some(value) => Some((value, 3)),
                    None => None,
                }
            }
        } else {
            None
        }
    } else {
        match letter(c, args, context) {
            Some(value) => Some((value, 1)),
            None => None,
        }
    }
}

/// Expands an alias: positional arguments (`$0`), ranges (`$1-`), all arguments (`$*`), and the
/// channel (`$C`, `$T`), the nick (`$N`) and the server (`$S`), also in braces.
pub fn expand_alias_template(
    template: &str,
    args: &Vec<String>,
    channel: &str,
    nick: &str,
    server: &str,
) -> (r: String)
    ensures
        r@ == expanded(
            template@,
            (Values { args: texts(args@), channel: channel@, nick: nick@, server: server@ }),
        ),
{
    let context = AliasContext {
        channel: channel.to_string(),
        nick: nick.to_string(),
        server: server.to_string(),
    };
    expand_in(template, args, &context)
}

/// Expands an alias in a context.
pub fn expand_in(template: &str, args: &Vec<String>, context: &AliasContext) -> (r: String)
    ensures
        r@ == expanded(template@, values(args@, *context)),
{
    let ghost v = values(args@, *context);
    let mut full = template.to_string();
    if !has_char(template, '$') {
        full.append(" $*");
    }
    let t = chars_of(full.as_str());
    let n: usize = t.len();
    let mut out = String::new();
    let mut i: usize = 0;
    assert(t@.skip(0) =~= t@);
    assert(out@ + replaced(t@, v) =~= replaced(t@, v));
    while i < n
        invariant
            n == t@.len(),
            i <= n,
            v == values(args@, *context),
            out@ + replaced(t@.skip(i as int), v) == replaced(t@, v),
        decreases n - i,
    {
        let ghost rest = t@.skip(i as int);
        assert(rest.skip(1) =~= t@.skip(i + 1));
        let ghost before = out@;
        if t[i] != '$' {
            out.push(t[i]);
            assert(out@ + replaced(t@.skip(i + 1), v) =~= before + (seq![t@[i as int]] + replaced(
                t@.skip(i + 1),
                v,
            )));
            i = i + 1;
        } else {
            match placeholder_at(&t, i + 1, args, context) {
                Some((value, len)) => {
                    out.append(value.as_str());
                    assert(rest.skip(1 + len as int) =~= t@.skip(i + 1 + len));
                    assert(out@ + replaced(t@.skip(i + 1 + len), v) =~= before + (value@ + replaced(
                        t@.skip(i + 1 + len),
                        v,
                    )));
                    i = i + 1 + len;
                },
                None => {
                    out.push('$');
                    assert(out@ + replaced(t@.skip(i + 1), v) =~= before + (seq!['$'] + replaced(
                        t@.skip(i + 1),
                        v,
                    )));
                    i = i + 1;
                },
            }
        }
    }
    assert(out@ =~= replaced(t@, v)) by {
        assert(t@.skip(n as int) =~= Seq::<char>::empty());
        assert(out@ + Seq::<char>::empty() =~= out@);
    }
    trim(out.as_str())
}

/// A command line taken apart.
#[derive(Debug)]
pub struct ParsedCommand {
    pub name: String,
    pub args: Vec<String>,
}

/// A command line begins with one slash and a name.
pub open spec fn command_line(text: Seq<char>) -> bool {
    text.len() >= 2 && text[0] == '/' && text[1] != '/' && words_seq(text.skip(1)).len() > 0
        && words_seq(text.skip(1))[0].is_prefix_of(text.skip(1))
}

/// Takes a command line apart into the lower-case name and the words behind it.
pub fn parse_command(text: &str) -> (r: Option<ParsedCommand>)
    ensures
        match r {
            Some(p) => {
                &&& command_line(text@)
                &&& p.name@ == lower_seq(words_seq(text@.skip(1))[0])
                &&& texts(p.args@) == words_seq(text@.skip(1)).skip(1)
            },
            None => !command_line(text@),
        },
{
    let v = chars_of(text);
    let n: usize = v.len();
    if n < 2 || v[0] != '/' || v[1] == '/' {
        return None;
    }
    let rest = slice_text(&v, 1, n);
    assert(rest@ =~= text@.skip(1));
    let mut args = words(rest.as_str());
    let ghost all = texts(args@);
    if args.len() == 0 {
        return None;
    }
    if !crate::text::starts_with(rest.as_str(), args[0].as_str()) {
        return None;
    }
    let ghost was = args@;
    let first = args.remove(0);
    assert(texts(args@) =~= all.skip(1)) by {
        assert(args@ =~= was.skip(1));
    }
    assert(all[0] == first@);
    Some(ParsedCommand { name: lower(first.as_str()), args })
}

/// The commands of a chain: the parts between semicolons, trimmed, without empty ones.
pub open spec fn chain(parts: Seq<Seq<char>>) -> Seq<Seq<char>>
    decreases parts.len(),
{
    if parts.len() == 0 {
        Seq::empty()
    } else {
        let init = chain(parts.drop_last());
        let last = trim_seq(parts.last());
        if last.len() == 0 {
            init
        } else {
            init.push(last)
        }
    }
}

/// Takes a chain of commands apart.
pub fn split_chain(line: &str) -> (r: Vec<String>)
    ensures
        texts(r@) == chain(pieces(line@, ';')),
{
    let parts = split(line, ';');
    let ghost all = texts(parts@);
    let mut r: Vec<String> = Vec::new();
    let mut i: usize = 0;
    assert(all.take(0) =~= Seq::<Seq<char>>::empty());
    assert(texts(r@) =~= Seq::<Seq<char>>::empty());
    while i < parts.len()
        invariant
            i <= parts@.len(),
            all == texts(parts@),
            texts(r@) == chain(all.take(i as int)),
        decreases parts@.len() - i,
    {
        let ghost before = texts(r@);
        assert(all.take(i + 1).drop_last() =~= all.take(i as int));
        assert(all.take(i + 1).last() == parts@[i as int]@);
        let part = trim(parts[i].as_str());
        if !part.as_str().is_empty() {
            let ghost p = part@;
            r.push(part);
            assert(texts(r@) =~= before.push(p));
        }
        i = i + 1;
    }
    assert(all.take(all.len() as int) =~= all);
    r
}

/// A template without a dollar sign passes all arguments on behind it.
pub proof fn plain_template_takes_all_arguments(template: Seq<char>, v: Values)
    requires
        !template.contains('$'),
    ensures
        expanded(template, v) == trim_seq(template + seq![' '] + join_seq(v.args, seq![' '])),
{
    reveal_strlit(" $*");
    lemma_replaced_plain(template, " $*"@, v);
    let tail = " $*"@;
    assert(tail.skip(1) =~= seq!['$', '*']);
    assert(tail.skip(1).skip(1) =~= seq!['*']);
    assert(tail.skip(1).skip(2) =~= Seq::<char>::empty());
    reveal_with_fuel(replaced, 4);
    assert(replaced(tail, v) =~= seq![' '] + join_seq(v.args, seq![' ']));
    assert(template + (seq![' '] + join_seq(v.args, seq![' '])) =~= template + seq![' '] + join_seq(
        v.args,
        seq![' '],
    ));
}

proof fn lemma_replaced_plain(s: Seq<char>, tail: Seq<char>, v: Values)
    requires
        !s.contains('$'),
    ensures
        replaced(s + tail, v) == s + replaced(tail, v),
    decreases s.len(),
{
    if s.len() == 0 {
        assert(s + tail =~= tail);
        assert(s + replaced(tail, v) =~= replaced(tail, v));
    } else {
        assert(s[0] != '$') by {
            assert(s.contains(s[0]));
        }
        assert((s + tail).skip(1) =~= s.skip(1) + tail);
        assert(!s.skip(1).contains('$')) by {
            if s.skip(1).contains('$') {
                let k = choose|k: int| 0 <= k < s.skip(1).len() && s.skip(1)[k] == '$';
                assert(s[k + 1] == '$');
            }
        }
        lemma_replaced_plain(s.skip(1), tail, v);
        assert(seq![s[0]] + (s.skip(1) + replaced(tail, v)) =~= s + replaced(tail, v));
    }
}

/// What stands before a placeholder stays, the placeholder becomes its value, and the rest is replaced in
/// turn: a digit stands for the argument at that position, with a dash behind it for all from there on,
/// `C` and `T` for the conversation, `N` for the nick, `S` for the server and `*` for all arguments; braces
/// change nothing about that. An argument that is not there is empty.
pub proof fn placeholders_become_their_values(s: Seq<char>, c: char, rest: Seq<char>, v: Values)
    requires
        !s.contains('$'),
    ensures
        '0' <= c <= '9' && !(rest.len() > 0 && rest[0] == '-') ==> replaced(s + seq!['$', c] + rest, v) == s + (if (
        c as int - 48) < v.args.len() {
            v.args[c as int - 48]
        } else {
            Seq::empty()
        }) + replaced(rest, v),
        '0' <= c <= '9' ==> replaced(s + seq!['$', c, '-'] + rest, v) == s + (if (c as int - 48) < v.args.len() {
            join_seq(v.args.skip(c as int - 48), seq![' '])
        } else {
            Seq::empty()
        }) + replaced(rest, v),
        '0' <= c <= '9' ==> replaced(s + seq!['$', '{', c, '}'] + rest, v) == s + (if (c as int - 48)
            < v.args.len() {
            v.args[c as int - 48]
        } else {
            Seq::empty()
        }) + replaced(rest, v),
        c == 'C' || c == 'T' ==> replaced(s + seq!['$', c] + rest, v) == s + v.channel + replaced(rest, v),
        c == 'N' ==> replaced(s + seq!['$', c] + rest, v) == s + v.nick + replaced(rest, v),
        c == 'S' ==> replaced(s + seq!['$', c] + rest, v) == s + v.server + replaced(rest, v),
        c == '*' ==> replaced(s + seq!['$', c] + rest, v) == s + join_seq(v.args, seq![' ']) + replaced(rest, v),
        c == 'C' || c == 'T' || c == 'N' || c == 'S' || c == '*' ==> replaced(
            s + seq!['$', '{', c, '}'] + rest,
            v,
        ) == replaced(s + seq!['$', c] + rest, v),
{
    lemma_placeholder_at(s, seq!['$', c], rest, v);
    lemma_placeholder_at(s, seq!['$', c, '-'], rest, v);
    lemma_placeholder_at(s, seq!['$', '{', c, '}'], rest, v);
    let one = seq!['$', c] + rest;
    let two = seq!['$', c, '-'] + rest;
    let four = seq!['$', '{', c, '}'] + rest;
    assert(one.skip(1)[0] == c);
    assert(one.skip(2) =~= rest);
    assert(rest.len() > 0 ==> one.skip(1)[1] == rest[0]);
    assert(two.skip(1)[0] == c && two.skip(1)[1] == '-');
    assert(two.skip(3) =~= rest);
    assert(four.skip(1)[0] == '{' && four.skip(1)[1] == c && four.skip(1)[2] == '}');
    assert(four.skip(4) =~= rest);
    if '0' <= c <= '9' {
        assert(is_digit(c));
        assert(c as nat - 48 == c as int - 48);
    }
    if c == 'C' || c == 'T' || c == 'N' || c == 'S' || c == '*' {
        assert(!is_digit(c));
        let value = letter_value(c, v)->0;
        assert(placeholder(one.skip(1), v) == Some((value, 1nat)));
        assert(placeholder(four.skip(1), v) == Some((value, 3nat)));
        assert(s + (value + replaced(rest, v)) =~= s + value + replaced(rest, v));
    }
    if '0' <= c <= '9' {
        let n = (c as nat - 48) as nat;
        assert(placeholder(two.skip(1), v) == Some((range_value(n, v), 2nat)));
        assert(placeholder(four.skip(1), v) == Some((arg_value(n, v), 3nat)));
        assert(s + (range_value(n, v) + replaced(rest, v)) =~= s + range_value(n, v) + replaced(rest, v));
        assert(s + (arg_value(n, v) + replaced(rest, v)) =~= s + arg_value(n, v) + replaced(rest, v));
        if !(rest.len() > 0 && rest[0] == '-') {
            assert(placeholder(one.skip(1), v) == Some((arg_value(n, v), 1nat)));
        }
    }
}

/// What stands before a placeholder stays.
proof fn lemma_placeholder_at(s: Seq<char>, mark: Seq<char>, rest: Seq<char>, v: Values)
    requires
        !s.contains('$'),
    ensures
        replaced(s + mark + rest, v) == s + replaced(mark + rest, v),
{
    assert(s + mark + rest =~= s + (mark + rest));
    lemma_replaced_plain(s, mark + rest, v);
}

proof fn lemma_chain_both(a: Seq<Seq<char>>, b: Seq<Seq<char>>)
    ensures
        chain(a + b) == chain(a) + chain(b),
    decreases b.len(),
{
    if b.len() == 0 {
        assert(a + b =~= a);
        assert(chain(a) + chain(b) =~= chain(a));
    } else {
        assert((a + b).drop_last() =~= a + b.drop_last());
        assert((a + b).last() == b.last());
        lemma_chain_both(a, b.drop_last());
        assert(chain(a + b) =~= chain(a) + chain(b));
    }
}

/// The commands of a chain run in their order: those before a semicolon, and then those behind it; one alone
/// runs as it is, without the white space around it, and a blank one not at all.
pub proof fn chained_commands_run_in_order(a: Seq<char>, b: Seq<char>)
    ensures
        chain(pieces(a.push(';') + b, ';')) == chain(pieces(a, ';')) + chain(pieces(b, ';')),
        !a.contains(';') ==> chain(pieces(a, ';')) == (if trim_seq(a).len() == 0 {
            Seq::empty()
        } else {
            seq![trim_seq(a)]
        }),
{
    separators_part_a_text(a, ';', b);
    lemma_chain_both(pieces(a, ';'), pieces(b, ';'));
    if !a.contains(';') {
        unparted_text_is_one_piece(a, ';');
        let one = seq![a];
        assert(one.drop_last() =~= Seq::<Seq<char>>::empty());
        assert(chain(one.drop_last()) =~= Seq::<Seq<char>>::empty());
        assert(one.last() == a);
        assert(chain(one) =~= (if trim_seq(a).len() == 0 {
            Seq::empty()
        } else {
            seq![trim_seq(a)]
        }));
    }
}

} // verus!
