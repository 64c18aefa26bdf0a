//! The command language of the interactive shell: whitespace-separated
//! tokens, where single or double quotes keep whitespace inside a token.
use vstd::prelude::*;
use crate::properties::Properties;
use crate::text::{decimal_of, parse_decimal, str_eq};
use vstd::utf8::encode_utf8;
use vstd::std_specs::iter::IteratorSpec;

verus! {

/// `c` has the Unicode White_Space property.
pub open spec fn is_space(c: char) -> bool {
    ('\u{9}' <= c <= '\u{d}') || c == ' ' || c == '\u{85}' || c == '\u{a0}' || c == '\u{1680}' || (
    '\u{2000}' <= c <= '\u{200a}') || c == '\u{2028}' || c == '\u{2029}' || c == '\u{202f}' || c
        == '\u{205f}' || c == '\u{3000}'
}

/// Whether `c` has the Unicode White_Space property.
pub fn char_is_space(c: char) -> (r: bool)
    ensures
        r == is_space(c),
{
    ('\u{9}' <= c && c <= '\u{d}') || c == ' ' || c == '\u{85}' || c == '\u{a0}' || c == '\u{1680}'
        || ('\u{2000}' <= c && c <= '\u{200a}') || c == '\u{2028}' || c == '\u{2029}' || c
        == '\u{202f}' || c == '\u{205f}' || c == '\u{3000}'
}

/// Where the tokenizer is: between tokens, inside a bare token, or inside a
/// token opened by quote character `q`.
pub enum LexState {
    Between,
    Word,
    Quoted(char),
}

/// The tokens of `s` from position `i` on, given the state there, the
/// token being read and the tokens read so far.
pub open spec fn lex(s: Seq<char>, i: int, state: LexState, cur: Seq<char>, acc: Seq<Seq<char>>) -> Seq<Seq<char>>
    decreases s.len() - i,
{
    if i >= s.len() {
        match state {
            LexState::Between => acc,
            _ => acc.push(cur),
        }
    } else {
        let c = s[i];
        match state {
            LexState::Between => if is_space(c) {
                lex(s, i + 1, LexState::Between, Seq::empty(), acc)
            } else if c == '"' || c == '\'' {
                lex(s, i + 1, LexState::Quoted(c), Seq::empty(), acc)
            } else {
                lex(s, i + 1, LexState::Word, seq![c], acc)
            },
            LexState::Word => if is_space(c) {
                lex(s, i + 1, LexState::Between, Seq::empty(), acc.push(cur))
            } else {
                lex(s, i + 1, LexState::Word, cur.push(c), acc)
            },
            LexState::Quoted(q) => if c == q {
                lex(s, i + 1, LexState::Between, Seq::empty(), acc.push(cur))
            } else {
                lex(s, i + 1, LexState::Quoted(q), cur.push(c), acc)
            },
        }
    }
}

/// The tokens of a command line.
pub open spec fn tokens(s: Seq<char>) -> Seq<Seq<char>> {
    lex(s, 0, LexState::Between, Seq::empty(), Seq::empty())
}

/// The views of a list of strings.
pub open spec fn strings_view(v: Seq<String>) -> Seq<Seq<char>> {
    v.map_values(|s: String| s@)
}

/// The characters of `s`, in order.
fn chars_of(s: &str) -> (r: Vec<char>)
    ensures
        r@ == s@,
{
    broadcast use vstd::string::axiom_spec_iter, vstd::string::next_postcondition;

    let mut it = s.chars();
    let mut r: Vec<char> = Vec::new();
    loop
        invariant
            r@ + it.remaining() == s@,
            it.decrease() is Some,
        ensures
            r@ == s@,
        decreases it.decrease()->0,
    {
        let ghost before = it.remaining();
        match it.next() {
            Some(c) => {
                r.push(c);
                proof {
                    assert(r@ + it.remaining() =~= s@) by {
                        assert(before == seq![c] + before.drop_first());
                    }
                }
            },
            None => {
                proof {
                    assert(r@ + it.remaining() == s@);
                    assert(it.remaining().len() == 0);
                    assert(r@ =~= s@);
                }
                break ;
            },
        }
    }
    r
}

/// Relies on `String::from_iter`: the string holds the characters in order.
#[verifier::external_body]
fn string_of(cs: &Vec<char>) -> (r: String)
    ensures
        r@ == cs@,
{
    String::from_iter(cs.iter())
}

/// Splits a command line into tokens.
#[verifier::rlimit(60)]
pub fn split_command_line(input: &str) -> (r: Vec<String>)
    ensures
        strings_view(r@) == tokens(input@),
{
    let s = chars_of(input);
    let n = s.len();
    let mut state = LexState::Between;
    let mut cur: Vec<char> = Vec::new();
    let mut acc: Vec<String> = Vec::new();
    let mut i: usize = 0;
    proof {
        assert(strings_view(acc@) =~= Seq::<Seq<char>>::empty());
    }
    while i < n
        invariant
            n == s@.len(),
            s@ == input@,
            i <= n,
            state is Between ==> cur@ == Seq::<char>::empty(),
            lex(s@, i as int, state, cur@, strings_view(acc@)) == tokens(input@),
        decreases n - i,
    {
        let c = s[i];
        let ghost before = strings_view(acc@);
        match state {
            LexState::Between => {
                if char_is_space(c) {
                    proof {
                        assert(cur@ =~= Seq::<char>::empty());
                    }
                } else if c == '"' || c == '\'' {
                    state = LexState::Quoted(c);
                    proof {
                        assert(cur@ =~= Seq::<char>::empty());
                    }
                } else {
                    cur.push(c);
                    state = LexState::Word;
                    proof {
                        assert(cur@ =~= seq![c]);
                    }
                }
            },
            LexState::Word => {
                if char_is_space(c) {
                    acc.push(string_of(&cur));
                    cur = Vec::new();
                    state = LexState::Between;
                    proof {
                        assert(cur@ =~= Seq::<char>::empty());
                    }
                    proof {
                        assert(strings_view(acc@) =~= before.push(strings_view(acc@).last()));
                    }
                } else {
                    cur.push(c);
                }
            },
            LexState::Quoted(q) => {
                if c == q {
                    acc.push(string_of(&cur));
                    cur = Vec::new();
                    state = LexState::Between;
                    proof {
                        assert(cur@ =~= Seq::<char>::empty());
                    }
                    proof {
                        assert(strings_view(acc@) =~= before.push(strings_view(acc@).last()));
                    }
                } else {
                    cur.push(c);
                }
            },
        }
        i = i + 1;
    }
    let ghost before = strings_view(acc@);
    match state {
        LexState::Between => {},
        _ => {
            acc.push(string_of(&cur));
            proof {
                assert(strings_view(acc@) =~= before.push(strings_view(acc@).last()));
            }
        },
    }
    acc
}

/// The position of the first `=` in `s` at or after `i`, or -1.
pub open spec fn eq_from(s: Seq<char>, i: int) -> int
    decreases s.len() - i,
{
    if i >= s.len() {
        -1
    } else if s[i] == '=' {
        i
    } else {
        eq_from(s, i + 1)
    }
}

/// The properties that `key=value` arguments set, later ones winning;
/// arguments without `=` are ignored.
pub open spec fn properties_of(args: Seq<Seq<char>>) -> Map<Seq<char>, Seq<char>>
    decreases args.len(),
{
    if args.len() == 0 {
        Map::empty()
    } else {
        let m = properties_of(args.drop_last());
        let a = args.last();
        let k = eq_from(a, 0);
        if k >= 0 {
            m.insert(a.subrange(0, k), a.subrange(k + 1, a.len() as int))
        } else {
            m
        }
    }
}

/// Characters `[from, to)` of `s`.
fn chars_between(s: &Vec<char>, from: usize, to: usize) -> (r: Vec<char>)
    requires
        from <= to <= s@.len(),
    ensures
        r@ == s@.subrange(from as int, to as int),
{
    let mut r: Vec<char> = Vec::new();
    let mut i = from;
    while i < to
        invariant
            from <= i <= to,
            to <= s@.len(),
            r@ == s@.subrange(from as int, i as int),
        decreases to - i,
    {
        r.push(s[i]);
        proof {
            assert(s@.subrange(from as int, i + 1) =~= s@.subrange(from as int, i as int).push(s@[i as int]));
        }
        i = i + 1;
    }
    r
}

/// Reads `key=value` arguments into properties; the first `=` splits.
pub fn parse_properties(args: &[String]) -> (r: Properties)
    ensures
        r@ == properties_of(strings_view(args@)),
{
    let mut p = Properties::new();
    let n = args.len();
    let mut i: usize = 0;
    while i < n
        invariant
            n == args@.len(),
            i <= n,
            p@ == properties_of(strings_view(args@).take(i as int)),
        decreases n - i,
    {
        let cs = chars_of(args[i].as_str());
        let m = cs.len();
        let mut j: usize = 0;
        while j < m && cs[j] != '='
            invariant
                m == cs@.len(),
                j <= m,
                forall|k: int| 0 <= k < j ==> cs@[k] != '=',
                eq_from(cs@, 0) == eq_from(cs@, j as int),
            decreases m - j,
        {
            j = j + 1;
        }
        proof {
            assert(strings_view(args@).take(i + 1).drop_last() =~= strings_view(args@).take(i as int));
            assert(strings_view(args@).take(i + 1).last() == cs@);
        }
        if j < m {
            let key = string_of(&chars_between(&cs, 0, j));
            let value = string_of(&chars_between(&cs, j + 1, m));
            p.insert(key, value);
        }
        i = i + 1;
    }
    proof {
        assert(strings_view(args@).take(n as int) =~= strings_view(args@));
    }
    p
}

/// A command of the shell.
pub enum Command {
    Exit,
    CreateGraph { name: String },
    ListGraphs,
    AddNode { graph_name: String, node_id: u64, label: String, properties: Properties },
    AddEdge { graph_name: String, edge_id: u64, from: u64, to: u64, label: String, properties: Properties },
    PrintGraphAdjacency { graph_name: String },
    PrintGraphRelations { graph_name: String },
    Unknown,
}

/// What a command is.
pub enum CommandView {
    Exit,
    CreateGraph(Seq<char>),
    ListGraphs,
    AddNode(Seq<char>, u64, Seq<char>, Map<Seq<char>, Seq<char>>),
    AddEdge(Seq<char>, u64, u64, u64, Seq<char>, Map<Seq<char>, Seq<char>>),
    PrintGraphAdjacency(Seq<char>),
    PrintGraphRelations(Seq<char>),
    Unknown,
}

impl View for Command {
    type V = CommandView;

    open spec fn view(&self) -> CommandView {
        match self {
            Command::Exit => CommandView::Exit,
            Command::CreateGraph { name } => CommandView::CreateGraph(name@),
            Command::ListGraphs => CommandView::ListGraphs,
            Command::AddNode { graph_name, node_id, label, properties } => CommandView::AddNode(
                graph_name@,
                *node_id,
                label@,
                properties@,
            ),
            Command::AddEdge { graph_name, edge_id, from, to, label, properties } => CommandView::AddEdge(
                graph_name@,
                *edge_id,
                *from,
                *to,
                label@,
                properties@,
            ),
            Command::PrintGraphAdjacency { graph_name } => CommandView::PrintGraphAdjacency(graph_name@),
            Command::PrintGraphRelations { graph_name } => CommandView::PrintGraphRelations(graph_name@),
            Command::Unknown => CommandView::Unknown,
        }
    }
}

/// The number that a token spells, if it is a decimal numeral.
pub open spec fn number_of(t: Seq<char>) -> Option<u64> {
    decimal_of(encode_utf8(t))
}

/// The command that the tokens `t` spell.
pub open spec fn command_of(t: Seq<Seq<char>>) -> CommandView {
    if t.len() == 0 {
        CommandView::Unknown
    } else if t[0] == "exit"@ {
        CommandView::Exit
    } else if t[0] == "create"@ && t.len() == 3 && t[1] == "graph"@ {
        CommandView::CreateGraph(t[2])
    } else if t[0] == "list"@ && t.len() == 2 && t[1] == "graphs"@ {
        CommandView::ListGraphs
    } else if t[0] == "add"@ && t.len() >= 5 && t[1] == "node"@ {
        match number_of(t[3]) {
            Some(id) => CommandView::AddNode(t[2], id, t[4], properties_of(t.skip(5))),
            None => CommandView::Unknown,
        }
    } else if t[0] == "add"@ && t.len() >= 7 && t[1] == "edge"@ {
        match (number_of(t[3]), number_of(t[4]), number_of(t[5])) {
            (Some(id), Some(from), Some(to)) => CommandView::AddEdge(t[2], id, from, to, t[6], properties_of(t.skip(7))),
            _ => CommandView::Unknown,
        }
    } else if t[0] == "print"@ && t.len() == 4 && t[1] == "graph"@ && t[2] == "adjacency"@ {
        CommandView::PrintGraphAdjacency(t[3])
    } else if t[0] == "print"@ && t.len() == 4 && t[1] == "graph"@ && t[2] == "relations"@ {
        CommandView::PrintGraphRelations(t[3])
    } else {
        CommandView::Unknown
    }
}

/// Reads one line of the shell as a command.
#[verifier::rlimit(60)]
pub fn parse_command(input: &str) -> (r: Command)
    ensures
        r@ == command_of(tokens(input@)),
{
    let args = split_command_line(input);
    let ghost t = strings_view(args@);
    proof {
        assert forall|i: int| 0 <= i < args@.len() implies #[trigger] args@[i]@ == t[i] by {}
    }
    let n = args.len();
    if n == 0 {
        return Command::Unknown;
    }
    if str_eq(args[0].as_str(), "exit") {
        return Command::Exit;
    }
    if str_eq(args[0].as_str(), "create") && n == 3 && str_eq(args[1].as_str(), "graph") {
        return Command::CreateGraph { name: args[2].clone() };
    }
    if str_eq(args[0].as_str(), "list") && n == 2 && str_eq(args[1].as_str(), "graphs") {
        return Command::ListGraphs;
    }
    if str_eq(args[0].as_str(), "add") && n >= 5 && str_eq(args[1].as_str(), "node") {
        return match parse_decimal(args[3].as_str()) {
            Some(node_id) => {
                let properties = parse_properties(vstd::slice::slice_subrange(args.as_slice(), 5, n));
                proof {
                    assert(strings_view(args@.subrange(5, n as int)) =~= t.skip(5));
                }
                Command::AddNode { graph_name: args[2].clone(), node_id, label: args[4].clone(), properties }
            },
            None => Command::Unknown,
        };
    }
    if str_eq(args[0].as_str(), "add") && n >= 7 && str_eq(args[1].as_str(), "edge") {
        return match (parse_decimal(args[3].as_str()), parse_decimal(args[4].as_str()), parse_decimal(args[5].as_str())) {
            (Some(edge_id), Some(from), Some(to)) => {
                let properties = parse_properties(vstd::slice::slice_subrange(args.as_slice(), 7, n));
                proof {
                    assert(strings_view(args@.subrange(7, n as int)) =~= t.skip(7));
                }
                Command::AddEdge { graph_name: args[2].clone(), edge_id, from, to, label: args[6].clone(), properties }
            },
            _ => Command::Unknown,
        };
    }
    if str_eq(args[0].as_str(), "print") && n == 4 && str_eq(args[1].as_str(), "graph") && str_eq(args[2].as_str(), "adjacency") {
        return Command::PrintGraphAdjacency { graph_name: args[3].clone() };
    }
    if str_eq(args[0].as_str(), "print") && n == 4 && str_eq(args[1].as_str(), "graph") && str_eq(args[2].as_str(), "relations") {
        return Command::PrintGraphRelations { graph_name: args[3].clone() };
    }
    Command::Unknown
}

} // verus!
