//! A bidirectional codec between shape-described command values and a
//! line-oriented, space/colon/comma-delimited wire format in the style of
//! the IRC message grammar.
//!
//! A raw line splits into an optional source prefix, a command, and
//! parameters, where only the last parameter may contain spaces (it is
//! introduced by a colon). The `proto` module walks a shape description to
//! turn structured values into parameter tokens and back.
use vstd::prelude::*;

pub mod error;
pub mod num;
pub mod proto;

verus! {

/// A parsed wire message: an optional source prefix, a command, and the
/// parameters in encounter order.
#[derive(Debug, PartialEq, Eq, Clone)]
pub struct Message {
    pub source: Option<String>,
    pub command: String,
    pub parameters: Vec<String>,
}

/// The mathematical content of a [`Message`].
pub struct SpecMessage {
    pub source: Option<Seq<char>>,
    pub command: Seq<char>,
    pub parameters: Seq<Seq<char>>,
}

impl View for Message {
    type V = SpecMessage;

    open spec fn view(&self) -> SpecMessage {
        SpecMessage {
            source: match self.source {
                Some(s) => Some(s@),
                None => None,
            },
            command: self.command@,
            parameters: self.parameters.deep_view(),
        }
    }
}

/// The text up to the first space of `s`, and the remainder after that
/// space. Without a space the whole of `s` is the part and the rest is
/// empty.
pub open spec fn split_space(s: Seq<char>) -> (Seq<char>, Seq<char>)
    decreases s.len(),
{
    if s.len() == 0 {
        (Seq::empty(), Seq::empty())
    } else if s[0] == ' ' {
        (Seq::empty(), s.drop_first())
    } else {
        let (p, r) = split_space(s.drop_first());
        (seq![s[0]] + p, r)
    }
}

/// `s` with every leading space removed.
pub open spec fn trim_spaces(s: Seq<char>) -> Seq<char>
    decreases s.len(),
{
    if s.len() > 0 && s[0] == ' ' {
        trim_spaces(s.drop_first())
    } else {
        s
    }
}

/// One lexing step: the next token, and the rest of the line with the
/// separating spaces consumed.
pub open spec fn spec_read_part(s: Seq<char>) -> (Seq<char>, Seq<char>) {
    let (p, r) = split_space(s);
    (p, trim_spaces(r))
}

proof fn lemma_trim_len(s: Seq<char>)
    ensures
        trim_spaces(s).len() <= s.len(),
    decreases s.len(),
{
    if s.len() > 0 && s[0] == ' ' {
        lemma_trim_len(s.drop_first());
    }
}

proof fn lemma_split_space_len(s: Seq<char>)
    requires
        s.len() > 0,
    ensures
        split_space(s).1.len() < s.len(),
    decreases s.len(),
{
    if s[0] != ' ' {
        if s.len() > 1 {
            lemma_split_space_len(s.drop_first());
        } else {
            assert(s.drop_first().len() == 0);
            assert(split_space(s.drop_first()).1 =~= Seq::<char>::empty());
        }
    }
}

proof fn lemma_read_part_len(s: Seq<char>)
    requires
        s.len() > 0,
    ensures
        spec_read_part(s).1.len() < s.len(),
{
    lemma_split_space_len(s);
    lemma_trim_len(split_space(s).1);
}

/// The parameter list of the remaining line `s`: a leading colon turns the
/// whole rest of the line into the final parameter.
pub open spec fn spec_parse_params(s: Seq<char>) -> Seq<Seq<char>>
    decreases s.len(),
    via spec_parse_params_decreases
{
    if s.len() == 0 {
        Seq::empty()
    } else if s[0] == ':' {
        seq![s.drop_first()]
    } else {
        let (p, r) = spec_read_part(s);
        seq![p] + spec_parse_params(r)
    }
}

#[via_fn]
proof fn spec_parse_params_decreases(s: Seq<char>) {
    if s.len() > 0 && s[0] != ':' {
        lemma_read_part_len(s);
    }
}

/// How a raw line parses: an optional colon-introduced source prefix, then
/// the command token, then the parameters.
pub open spec fn spec_parse(s: Seq<char>) -> SpecMessage {
    let (source, after_source) = if s.len() > 0 && s[0] == ':' {
        let (p, r) = spec_read_part(s.drop_first());
        (Some(p), r)
    } else {
        (None, s)
    };
    let (command, after_command) = spec_read_part(after_source);
    SpecMessage { source, command, parameters: spec_parse_params(after_command) }
}

/// How a message renders from its parameters on: every parameter but the
/// last is preceded by a space; the last is always preceded by ` :`.
pub open spec fn spec_render_params(ps: Seq<Seq<char>>) -> Seq<char>
    decreases ps.len(),
{
    if ps.len() == 0 {
        Seq::empty()
    } else if ps.len() == 1 {
        seq![' ', ':'] + ps[0]
    } else {
        seq![' '] + ps[0] + spec_render_params(ps.drop_first())
    }
}

/// How a message renders into a raw line.
pub open spec fn spec_render(m: SpecMessage) -> Seq<char> {
    let prefix = match m.source {
        Some(src) => seq![':'] + src + seq![' '],
        None => Seq::<char>::empty(),
    };
    prefix + m.command + spec_render_params(m.parameters)
}

/// A token that survives rendering: non-empty, without spaces, and not
/// starting with a colon.
pub open spec fn plain_token(s: Seq<char>) -> bool {
    s.len() > 0 && !s.contains(' ') && s[0] != ':'
}

/// The messages whose rendering parses back to themselves: the command and
/// every parameter but the last are plain tokens, and the source carries no
/// space. The final parameter is unrestricted; the trailing colon keeps it
/// unambiguous.
pub open spec fn wf_message(m: SpecMessage) -> bool {
    &&& plain_token(m.command)
    &&& match m.source {
        Some(src) => !src.contains(' '),
        None => true,
    }
    &&& forall|i: int|
        0 <= i < m.parameters.len() - 1 ==> plain_token(#[trigger] m.parameters[i])
}

/// The lexer over a borrowed line. The parsed message copies the token
/// text out of the line, so the message owns its text.
pub struct Lexer<'a> {
    pub input: &'a str,
}

impl<'a> Lexer<'a> {
    pub fn new(input: &'a str) -> (r: Lexer<'a>)
        ensures
            r.input@ == input@,
    {
        Lexer { input }
    }

    /// The first character of the unconsumed input, if any.
    pub fn current(&self) -> (r: Option<char>)
        ensures
            match r {
                Some(c) => self.input@.len() > 0 && c == self.input@[0],
                None => self.input@.len() == 0,
            },
    {
        if self.input.unicode_len() == 0 {
            None
        } else {
            Some(self.input.get_char(0))
        }
    }

    /// Takes the next space-delimited token and consumes the separating
    /// spaces after it.
    pub fn read_part(&mut self) -> (p: &'a str)
        ensures
            (p@, final (self).input@) == spec_read_part(old(self).input@),
    {
        let ghost s0 = self.input@;
        let n = self.input.unicode_len();
        let mut i: usize = 0;
        while i < n
            invariant_except_break
                0 <= i <= n,
                n == self.input@.len(),
                self.input@ == s0,
                forall|j: int| 0 <= j < i ==> s0[j] != ' ',
            ensures
                0 <= i <= n,
                n == self.input@.len(),
                self.input@ == s0,
                forall|j: int| 0 <= j < i ==> s0[j] != ' ',
                i < n ==> s0[i as int] == ' ',
            decreases n - i,
        {
            if self.input.get_char(i) == ' ' {
                break ;
            }
            i = i + 1;
        }
        let part = self.input.substring_char(0, i);
        let mut rest = if i < n {
            self.input.substring_char(i + 1, n)
        } else {
            self.input.substring_char(n, n)
        };
        proof {
            lemma_split_space_at(s0, i as int);
            if i < n {
                assert(split_space(s0).1 =~= rest@);
            } else {
                assert(split_space(s0).1 =~= rest@);
            }
            assert(split_space(s0).0 =~= part@);
        }
        let ghost r0 = rest@;
        let mut m = rest.unicode_len();
        while m > 0 && rest.get_char(0) == ' '
            invariant
                m == rest@.len(),
                trim_spaces(rest@) == trim_spaces(r0),
            decreases m,
        {
            rest = rest.substring_char(1, m);
            m = m - 1;
        }
        self.input = rest;
        proof {
            assert(trim_spaces(rest@) == rest@);
        }
        part
    }

    /// Parses the whole line into a message.
    pub fn parse(&mut self) -> (m: Message)
        ensures
            m@ == spec_parse(old(self).input@),
    {
        let ghost s0 = self.input@;
        let source = match self.current() {
            Some(c) if c == ':' => {
                let n = self.input.unicode_len();
                self.input = self.input.substring_char(1, n);
                proof {
                    assert(self.input@ =~= s0.drop_first());
                }
                Some(String::from_str(self.read_part()))
            },
            _ => None,
        };
        let command = String::from_str(self.read_part());
        let ghost s1 = self.input@;
        let mut parameters: Vec<String> = Vec::new();
        loop
            invariant_except_break
                spec_parse_params(s1) =~= parameters.deep_view() + spec_parse_params(self.input@),
            ensures
                parameters.deep_view() == spec_parse_params(s1),
            decreases self.input@.len(),
        {
            match self.current() {
                Some(c) if c == ':' => {
                    let n = self.input.unicode_len();
                    let trailing = self.input.substring_char(1, n);
                    proof {
                        assert(trailing@ =~= self.input@.drop_first());
                        assert(spec_parse_params(self.input@) =~= seq![trailing@]);
                        assert(parameters.deep_view().push(trailing@) =~= parameters.deep_view()
                            + seq![trailing@]);
                    }
                    parameters.push(String::from_str(trailing));
                    proof {
                        assert(parameters.deep_view() =~= spec_parse_params(s1));
                    }
                    break ;
                },
                Some(_) => {
                    let ghost before = self.input@;
                    let part = self.read_part();
                    proof {
                        lemma_read_part_len(before);
                        assert(parameters.deep_view().push(part@) =~= parameters.deep_view()
                            + seq![part@]);
                        assert(spec_parse_params(before) =~= seq![part@] + spec_parse_params(
                            self.input@,
                        ));
                    }
                    parameters.push(String::from_str(part));
                },
                None => {
                    proof {
                        assert(spec_parse_params(self.input@) =~= Seq::<Seq<char>>::empty());
                        assert(parameters.deep_view() + Seq::<Seq<char>>::empty()
                            =~= parameters.deep_view());
                    }
                    break ;
                },
            }
        }
        let m = Message { source, command, parameters };
        proof {
            assert(m@.parameters =~= spec_parse_params(s1));
        }
        m
    }
}

/// `split_space` finds exactly the first space: if no character before `i`
/// is a space and `i` is either a space or the end, the part is `s` up to
/// `i`.
proof fn lemma_split_space_at(s: Seq<char>, i: int)
    requires
        0 <= i <= s.len(),
        forall|j: int| 0 <= j < i ==> s[j] != ' ',
        i < s.len() ==> s[i] == ' ',
    ensures
        split_space(s).0 == s.take(i),
        split_space(s).1 == if i < s.len() {
            s.skip(i + 1)
        } else {
            Seq::<char>::empty()
        },
    decreases i,
{
    if s.len() == 0 {
        assert(s.take(i) =~= split_space(s).0);
        assert(split_space(s).1 =~= Seq::<char>::empty());
    } else if i == 0 {
        if s[0] == ' ' {
            assert(s.take(0) =~= Seq::<char>::empty());
            assert(s.drop_first() =~= s.skip(1));
        }
    } else {
        lemma_split_space_at(s.drop_first(), i - 1);
        let (p, r) = split_space(s.drop_first());
        assert(split_space(s).0 =~= seq![s[0]] + p);
        assert(seq![s[0]] + s.drop_first().take(i - 1) =~= s.take(i));
        if i < s.len() {
            assert(s.drop_first().skip(i) =~= s.skip(i + 1));
        }
    }
}

impl Message {
    /// Parses a raw line, copying its text.
    pub fn from_text(line: &str) -> (m: Message)
        ensures
            m@ == spec_parse(line@),
    {
        let mut lexer = Lexer::new(line);
        lexer.parse()
    }

    /// Renders the message back into a raw line.
    pub fn to_text(&self) -> (r: String)
        ensures
            r@ == spec_render(self@),
    {
        let mut out = String::new();
        proof {
            reveal_strlit(":");
            reveal_strlit(" ");
            reveal_strlit(" :");
        }
        match &self.source {
            Some(src) => {
                out.append(":");
                out.append(src.as_str());
                out.append(" ");
                proof {
                    assert(out@ =~= seq![':'] + src@ + seq![' ']);
                }
            },
            None => {},
        }
        out.append(self.command.as_str());
        let ghost head = out@;
        let n = self.parameters.len();
        let ghost ps = self@.parameters;
        let mut i: usize = 0;
        proof {
            assert(ps.skip(0) =~= ps);
        }
        while i < n
            invariant
                0 <= i <= n,
                n == self.parameters.len(),
                ps == self@.parameters,
                out@ + spec_render_params(ps.skip(i as int)) == head + spec_render_params(ps),
            decreases n - i,
        {
            proof {
                reveal_strlit(" ");
                reveal_strlit(" :");
            }
            let ghost before = out@;
            if i + 1 == n {
                out.append(" :");
            } else {
                out.append(" ");
            }
            out.append(self.parameters[i].as_str());
            proof {
                let rest = ps.skip(i as int);
                assert(rest.len() == n - i);
                assert(rest[0] == ps[i as int]);
                if i + 1 == n {
                    assert(spec_render_params(rest) =~= seq![' ', ':'] + ps[i as int]);
                    assert(out@ =~= before + seq![' ', ':'] + ps[i as int]);
                    assert(rest.skip(1) =~= ps.skip(i + 1));
                    assert(spec_render_params(ps.skip(i + 1)) =~= Seq::<char>::empty());
                    assert(out@ + spec_render_params(ps.skip(i + 1)) =~= before
                        + spec_render_params(rest));
                } else {
                    assert(rest.drop_first() =~= ps.skip(i + 1));
                    assert(spec_render_params(rest) =~= seq![' '] + ps[i as int]
                        + spec_render_params(ps.skip(i + 1)));
                    assert(out@ =~= before + seq![' '] + ps[i as int]);
                    assert(out@ + spec_render_params(ps.skip(i + 1)) =~= before
                        + spec_render_params(rest));
                }
            }
            i = i + 1;
        }
        proof {
            assert(ps.skip(n as int) =~= Seq::<Seq<char>>::empty());
            assert(spec_render_params(ps.skip(n as int)) =~= Seq::<char>::empty());
            assert(out@ =~= head + spec_render_params(ps));
            match self@.source {
                Some(src) => {
                    assert(out@ =~= spec_render(self@));
                },
                None => {
                    assert(head =~= self@.command);
                    assert(out@ =~= spec_render(self@));
                },
            }
        }
        out
    }
}

/// Reading a plain token followed by a space and more text gives exactly
/// that token, with the rest intact.
proof fn lemma_split_space_token(a: Seq<char>, b: Seq<char>)
    requires
        !a.contains(' '),
    ensures
        split_space(a + seq![' '] + b) == (a, b),
    decreases a.len(),
{
    let s = a + seq![' '] + b;
    if a.len() == 0 {
        assert(s[0] == ' ');
        assert(s.drop_first() =~= b);
        assert(split_space(s).0 =~= a);
    } else {
        assert(s[0] == a[0]);
        assert(a[0] != ' ') by {
            assert(a.contains(a[0]));
        }
        assert(s.drop_first() =~= a.drop_first() + seq![' '] + b);
        assert(!a.drop_first().contains(' ')) by {
            if a.drop_first().contains(' ') {
                let k = choose|k: int| 0 <= k < a.drop_first().len() && a.drop_first()[k] == ' ';
                assert(a[k + 1] == ' ');
                assert(a.contains(' '));
            }
        }
        lemma_split_space_token(a.drop_first(), b);
        assert(split_space(s).0 =~= seq![s[0]] + a.drop_first());
        assert(seq![s[0]] + a.drop_first() =~= a);
    }
}

/// A token without spaces is read whole, leaving nothing.
proof fn lemma_split_space_whole(a: Seq<char>)
    requires
        !a.contains(' '),
    ensures
        split_space(a) == (a, Seq::<char>::empty()),
    decreases a.len(),
{
    if a.len() > 0 {
        assert(a[0] != ' ') by {
            assert(a.contains(a[0]));
        }
        assert(!a.drop_first().contains(' ')) by {
            if a.drop_first().contains(' ') {
                let k = choose|k: int| 0 <= k < a.drop_first().len() && a.drop_first()[k] == ' ';
                assert(a[k + 1] == ' ');
                assert(a.contains(' '));
            }
        }
        lemma_split_space_whole(a.drop_first());
        assert(split_space(a).0 =~= seq![a[0]] + a.drop_first());
        assert(seq![a[0]] + a.drop_first() =~= a);
    } else {
        assert(split_space(a).0 =~= a);
    }
}

/// The rendering of a non-empty parameter list after its leading space.
spec fn rendered_tail(ps: Seq<Seq<char>>) -> Seq<char> {
    if ps.len() == 1 {
        seq![':'] + ps[0]
    } else {
        ps[0] + spec_render_params(ps.drop_first())
    }
}

proof fn lemma_render_params_head(ps: Seq<Seq<char>>)
    requires
        ps.len() >= 1,
    ensures
        spec_render_params(ps) == seq![' '] + rendered_tail(ps),
{
    if ps.len() == 1 {
        assert(spec_render_params(ps) =~= seq![' '] + (seq![':'] + ps[0]));
    } else {
        assert(spec_render_params(ps) =~= seq![' '] + (ps[0] + spec_render_params(
            ps.drop_first(),
        )));
    }
}

proof fn lemma_rendered_tail_head(ps: Seq<Seq<char>>)
    requires
        ps.len() >= 1,
        ps.len() > 1 ==> plain_token(ps[0]),
    ensures
        rendered_tail(ps).len() > 0,
        rendered_tail(ps)[0] != ' ',
        ps.len() > 1 ==> rendered_tail(ps)[0] == ps[0][0],
        ps.len() == 1 ==> rendered_tail(ps)[0] == ':',
{
    if ps.len() == 1 {
        assert(rendered_tail(ps)[0] == ':');
    } else {
        assert(rendered_tail(ps)[0] == ps[0][0]);
        assert(ps[0][0] != ' ') by {
            assert(ps[0].contains(ps[0][0]));
        }
    }
}

/// Parsing the rendered tail of a well-formed parameter list recovers the
/// list.
proof fn lemma_parse_params_round(ps: Seq<Seq<char>>)
    requires
        ps.len() >= 1,
        forall|i: int| 0 <= i < ps.len() - 1 ==> plain_token(#[trigger] ps[i]),
    ensures
        spec_parse_params(rendered_tail(ps)) == ps,
    decreases ps.len(),
{
    if ps.len() == 1 {
        let s = seq![':'] + ps[0];
        assert(s[0] == ':');
        assert(s.drop_first() =~= ps[0]);
        assert(spec_parse_params(s) =~= seq![ps[0]]);
        assert(seq![ps[0]] =~= ps);
    } else {
        let tail = ps.drop_first();
        let s = ps[0] + spec_render_params(tail);
        lemma_render_params_head(tail);
        assert(s =~= ps[0] + seq![' '] + rendered_tail(tail));
        assert(plain_token(ps[0]));
        assert(s[0] == ps[0][0]);
        assert(ps[0][0] != ' ') by {
            assert(ps[0].contains(ps[0][0]));
        }
        assert(s[0] != ':' && s[0] != ' ');
        lemma_split_space_token(ps[0], rendered_tail(tail));
        assert(forall|i: int| 0 <= i < tail.len() - 1 ==> plain_token(#[trigger] tail[i])) by {
            assert(forall|i: int|
                0 <= i < tail.len() - 1 ==> tail[i] == ps[i + 1] && plain_token(
                    #[trigger] ps[i + 1],
                ));
        }
        assert(tail.len() > 1 ==> plain_token(tail[0])) by {
            assert(tail.len() > 1 ==> tail[0] == ps[1]);
        }
        lemma_rendered_tail_head(tail);
        assert(trim_spaces(rendered_tail(tail)) == rendered_tail(tail));
        assert(spec_read_part(s) == (ps[0], rendered_tail(tail)));
        lemma_parse_params_round(tail);
        assert(spec_parse_params(s) =~= seq![ps[0]] + tail);
        assert(seq![ps[0]] + tail =~= ps);
    }
}

/// Round-trip law of the message grammar: rendering a well-formed message
/// and parsing the line back yields the message unchanged. Only the final
/// parameter may hold spaces or a leading colon; the render side always
/// colon-prefixes it, so no ambiguity arises.
pub proof fn lemma_message_round_trip(m: SpecMessage)
    requires
        wf_message(m),
    ensures
        spec_parse(spec_render(m)) == m,
{
    let cmd_and_params = m.command + spec_render_params(m.parameters);
    assert(m.command[0] != ' ') by {
        assert(m.command.contains(m.command[0]));
    }
    assert(cmd_and_params[0] == m.command[0]);

    // The command token reads off the front of `cmd_and_params`.
    if m.parameters.len() == 0 {
        assert(spec_render_params(m.parameters) =~= Seq::<char>::empty());
        assert(cmd_and_params =~= m.command);
        lemma_split_space_whole(m.command);
        assert(spec_read_part(cmd_and_params) == (m.command, Seq::<char>::empty()));
        assert(spec_parse_params(Seq::<char>::empty()) =~= Seq::<Seq<char>>::empty());
    } else {
        lemma_render_params_head(m.parameters);
        assert(cmd_and_params =~= m.command + seq![' '] + rendered_tail(m.parameters));
        lemma_split_space_token(m.command, rendered_tail(m.parameters));
        assert(m.parameters.len() > 1 ==> plain_token(m.parameters[0]));
        lemma_rendered_tail_head(m.parameters);
        assert(trim_spaces(rendered_tail(m.parameters)) == rendered_tail(m.parameters));
        assert(spec_read_part(cmd_and_params) == (m.command, rendered_tail(m.parameters)));
        lemma_parse_params_round(m.parameters);
    }

    match m.source {
        None => {
            assert(spec_render(m) =~= cmd_and_params);
            assert(spec_render(m)[0] != ':');
            assert(spec_parse(spec_render(m)).source == m.source);
            assert(spec_parse(spec_render(m)).command == m.command);
            assert(spec_parse(spec_render(m)).parameters == m.parameters);
        },
        Some(src) => {
            let line = seq![':'] + src + seq![' '] + cmd_and_params;
            assert(spec_render(m) =~= line);
            assert(line[0] == ':');
            assert(line.drop_first() =~= src + seq![' '] + cmd_and_params);
            lemma_split_space_token(src, cmd_and_params);
            assert(cmd_and_params[0] != ' ');
            assert(trim_spaces(cmd_and_params) == cmd_and_params);
            assert(spec_read_part(line.drop_first()) == (src, cmd_and_params));
            assert(spec_parse(spec_render(m)).source == m.source);
            assert(spec_parse(spec_render(m)).command == m.command);
            assert(spec_parse(spec_render(m)).parameters == m.parameters);
        },
    }
}

} // verus!
