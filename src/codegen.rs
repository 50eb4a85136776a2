use vstd::prelude::*;
use crate::document::{Document, Node, Number, children_below};

verus! {

/// The text that json's number formatter gives a finite decimal.
pub uninterp spec fn number_text(positive: bool, mantissa: u64, exponent: i16) -> Seq<char>;

/// A character that a number's text may hold.
pub open spec fn is_number_char(c: char) -> bool {
    ('0' <= c && c <= '9') || c == '-' || c == '+' || c == '.' || c == 'e'
}

/// Relies on json's `Number` formatting (its `Display`), which writes the
/// shortest decimal text of the parts: the result depends on the parts
/// alone, and is made of digits, signs, a point and the exponent mark.
#[verifier::external_body]
fn format_decimal(positive: bool, mantissa: u64, exponent: i16) -> (r: String)
    ensures
        r@ == number_text(positive, mantissa, exponent),
        forall|i: int| 0 <= i < r@.len() ==> is_number_char(#[trigger] r@[i]),
{
    json::number::Number::from_parts(positive, mantissa, exponent).to_string()
}

pub open spec fn hex_digit(d: u32) -> char {
    if d < 10 {
        if d == 0 { '0' } else if d == 1 { '1' } else if d == 2 { '2' } else if d == 3 { '3' }
        else if d == 4 { '4' } else if d == 5 { '5' } else if d == 6 { '6' } else if d == 7 { '7' }
        else if d == 8 { '8' } else { '9' }
    } else {
        if d == 10 { 'a' } else if d == 11 { 'b' } else if d == 12 { 'c' } else if d == 13 { 'd' }
        else if d == 14 { 'e' } else { 'f' }
    }
}

pub open spec fn needs_escape(c: char) -> bool {
    c == '"' || c == '\\' || (c as u32) < 0x20
}

/// The text that stands for one character inside a quoted string.
pub open spec fn escape_char(c: char) -> Seq<char> {
    if c == '"' {
        seq!['\\', '"']
    } else if c == '\\' {
        seq!['\\', '\\']
    } else if c == '\u{8}' {
        seq!['\\', 'b']
    } else if c == '\t' {
        seq!['\\', 't']
    } else if c == '\n' {
        seq!['\\', 'n']
    } else if c == '\u{c}' {
        seq!['\\', 'f']
    } else if c == '\r' {
        seq!['\\', 'r']
    } else if (c as u32) < 0x20 {
        seq!['\\', 'u', '0', '0', hex_digit((c as u32) / 16), hex_digit((c as u32) % 16)]
    } else {
        seq![c]
    }
}

pub open spec fn escaped(s: Seq<char>) -> Seq<char>
    decreases s.len(),
{
    if s.len() == 0 {
        Seq::empty()
    } else {
        escaped(s.drop_last()) + escape_char(s.last())
    }
}

pub open spec fn quoted(s: Seq<char>) -> Seq<char> {
    seq!['"'] + escaped(s) + seq!['"']
}

pub open spec fn number_encoding(n: Number) -> Seq<char> {
    match n {
        Number::Decimal { positive, mantissa, exponent } => number_text(positive, mantissa, exponent),
        Number::NotANumber => seq!['n', 'u', 'l', 'l'],
    }
}

pub open spec fn scalar_encoding(node: Node) -> Seq<char> {
    match node {
        Node::Null => seq!['n', 'u', 'l', 'l'],
        Node::Boolean(b) => if b { seq!['t', 'r', 'u', 'e'] } else { seq!['f', 'a', 'l', 's', 'e'] },
        Node::Number(n) => number_encoding(n),
        Node::Str(s) => quoted(s@),
        _ => Seq::empty(),
    }
}

/// The canonical compact encoding of node `id` of `nodes`.
pub open spec fn encoding(nodes: Seq<Node>, id: nat) -> Seq<char>
    decreases id, 1nat, 0nat,
{
    if id < nodes.len() {
        match nodes[id as int] {
            Node::Array(items) => seq!['['] + items_encoding(nodes, items@, id) + seq![']'],
            Node::Object(members) => seq!['{'] + members_encoding(nodes, members@, id) + seq!['}'],
            _ => scalar_encoding(nodes[id as int]),
        }
    } else {
        Seq::empty()
    }
}

/// The items of an array, each encoded, separated by commas. `bound` is the
/// id of the array, above every item.
pub open spec fn items_encoding(nodes: Seq<Node>, items: Seq<usize>, bound: nat) -> Seq<char>
    decreases bound, 0nat, items.len(),
{
    if items.len() == 0 {
        Seq::empty()
    } else {
        let prefix = items_encoding(nodes, items.drop_last(), bound);
        let sep = if items.len() > 1 { seq![','] } else { Seq::empty() };
        if (items.last() as nat) < bound {
            prefix + sep + encoding(nodes, items.last() as nat)
        } else {
            prefix + sep
        }
    }
}

pub open spec fn member_key(key: Seq<char>) -> Seq<char> {
    quoted(key) + seq![':']
}

/// The members of an object as `"key":value`, separated by commas.
pub open spec fn members_encoding(nodes: Seq<Node>, members: Seq<(String, usize)>, bound: nat) -> Seq<char>
    decreases bound, 0nat, members.len(),
{
    if members.len() == 0 {
        Seq::empty()
    } else {
        let prefix = members_encoding(nodes, members.drop_last(), bound);
        let sep = if members.len() > 1 { seq![','] } else { Seq::empty() };
        let m = members.last();
        if (m.1 as nat) < bound {
            prefix + sep + member_key(m.0@) + encoding(nodes, m.1 as nat)
        } else {
            prefix + sep + member_key(m.0@)
        }
    }
}

/// Text that holds no escape character, so that painting it cannot be
/// mistaken for an escape sequence inside it.
pub open spec fn clean(s: Seq<char>) -> bool {
    forall|i: int| 0 <= i < s.len() ==> s[i] != '\u{1b}'
}

pub proof fn lemma_clean_concat(a: Seq<char>, b: Seq<char>)
    requires
        clean(a),
        clean(b),
    ensures
        clean(a + b),
{
    assert forall|i: int| 0 <= i < (a + b).len() implies (a + b)[i] != '\u{1b}' by {
        if i < a.len() {
            assert((a + b)[i] == a[i]);
        } else {
            assert((a + b)[i] == b[i - a.len()]);
        }
    }
}

pub proof fn lemma_escaped_is_clean(s: Seq<char>)
    ensures
        clean(escaped(s)),
        clean(quoted(s)),
    decreases s.len(),
{
    if s.len() > 0 {
        lemma_escaped_is_clean(s.drop_last());
        let c = s.last();
        assert(clean(escape_char(c)));
        lemma_clean_concat(escaped(s.drop_last()), escape_char(c));
    }
    lemma_clean_concat(seq!['"'], escaped(s));
    lemma_clean_concat(seq!['"'] + escaped(s), seq!['"']);
}

/// Relies on String::push: the character is appended.
#[verifier::external_body]
pub(crate) fn push_char(s: &mut String, c: char)
    ensures
        final(s)@ == old(s)@.push(c),
{
    s.push(c)
}

fn hex_digit_exec(d: u32) -> (c: char)
    requires
        d < 16,
    ensures
        c == hex_digit(d),
{
    if d < 10 {
        if d == 0 { '0' } else if d == 1 { '1' } else if d == 2 { '2' } else if d == 3 { '3' }
        else if d == 4 { '4' } else if d == 5 { '5' } else if d == 6 { '6' } else if d == 7 { '7' }
        else if d == 8 { '8' } else { '9' }
    } else {
        if d == 10 { 'a' } else if d == 11 { 'b' } else if d == 12 { 'c' } else if d == 13 { 'd' }
        else if d == 14 { 'e' } else { 'f' }
    }
}

fn needs_escape_exec(c: char) -> (r: bool)
    ensures
        r == needs_escape(c),
{
    c == '"' || c == '\\' || (c as u32) < 0x20
}

fn write_escaped_char(out: &mut String, c: char)
    ensures
        final(out)@ == old(out)@ + escape_char(c),
{
    let short: char = if c == '"' {
        '"'
    } else if c == '\\' {
        '\\'
    } else if c == '\u{8}' {
        'b'
    } else if c == '\t' {
        't'
    } else if c == '\n' {
        'n'
    } else if c == '\u{c}' {
        'f'
    } else if c == '\r' {
        'r'
    } else {
        'u'
    };
    if short == 'u' && (c as u32) >= 0x20 {
        push_char(out, c);
    } else {
        push_char(out, '\\');
        push_char(out, short);
        if short == 'u' {
            push_char(out, '0');
            push_char(out, '0');
            push_char(out, hex_digit_exec((c as u32) / 16));
            push_char(out, hex_digit_exec((c as u32) % 16));
        }
    }
    assert(out@ =~= old(out)@ + escape_char(c));
}

pub proof fn lemma_escaped_clean(s: Seq<char>)
    requires
        forall|i: int| 0 <= i < s.len() ==> !needs_escape(#[trigger] s[i]),
    ensures
        escaped(s) == s,
    decreases s.len(),
{
    if s.len() > 0 {
        lemma_escaped_clean(s.drop_last());
        assert(s.drop_last().push(s.last()) == s);
    }
}

pub proof fn lemma_escaped_append(a: Seq<char>, b: Seq<char>)
    ensures
        escaped(a + b) == escaped(a) + escaped(b),
    decreases b.len(),
{
    if b.len() == 0 {
        assert(a + b == a);
    } else {
        lemma_escaped_append(a, b.drop_last());
        assert((a + b).drop_last() == a + b.drop_last());
    }
}

/// Writes `s` as a quoted JSON string: the clean prefix in one piece, the
/// rest character by character.
pub fn write_string(out: &mut String, s: &str)
    ensures
        final(out)@ == old(out)@ + quoted(s@),
        clean(old(out)@) ==> clean(final(out)@),
{
    proof {
        lemma_escaped_is_clean(s@);
        if clean(old(out)@) {
            lemma_clean_concat(old(out)@, quoted(s@));
        }
    }
    proof { reveal_strlit("\""); }
    out.append("\"");
    let n = s.unicode_len();
    let mut start: usize = 0;
    while start < n && !needs_escape_exec(s.get_char(start))
        invariant
            n == s@.len(),
            start <= n,
            forall|i: int| 0 <= i < start ==> !needs_escape(#[trigger] s@[i]),
        decreases n - start,
    {
        start = start + 1;
    }
    let clean = s.substring_char(0, start);
    out.append(clean);
    proof {
        lemma_escaped_clean(s@.subrange(0, start as int));
    }
    let mut i: usize = start;
    while i < n
        invariant
            n == s@.len(),
            start <= i <= n,
            out@ == old(out)@ + seq!['"'] + escaped(s@.subrange(0, i as int)),
        decreases n - i,
    {
        let c = s.get_char(i);
        let ghost before = out@;
        write_escaped_char(out, c);
        proof {
            let p = s@.subrange(0, i as int);
            assert(s@.subrange(0, i + 1) == p + seq![c]);
            lemma_escaped_append(p, seq![c]);
            assert(seq![c].drop_last() == Seq::<char>::empty());
            assert(escaped(Seq::<char>::empty()) == Seq::<char>::empty());
            assert(escaped(seq![c]) == escape_char(c));
        }
        i = i + 1;
    }
    out.append("\"");
    assert(s@.subrange(0, n as int) == s@);
}

/// Writes the text of a number: the decimal's text, or `null` for not-a-number.
pub fn write_number(out: &mut String, n: &Number)
    ensures
        final(out)@ == old(out)@ + number_encoding(*n),
        forall|i: int| old(out)@.len() <= i < final(out)@.len() ==> is_number_char(#[trigger] final(out)@[i])
            || *n == Number::NotANumber,
{
    match n {
        Number::Decimal { positive, mantissa, exponent } => {
            let text = format_decimal(*positive, *mantissa, *exponent);
            out.append(text.as_str());
        },
        Number::NotANumber => {
            proof { reveal_strlit("null"); }
            out.append("null");
        },
    }
}

/// Writes the text of a node that has no children.
pub fn write_scalar(out: &mut String, node: &Node)
    requires
        !(node is Array),
        !(node is Object),
    ensures
        final(out)@ == old(out)@ + scalar_encoding(*node),
        clean(old(out)@) ==> clean(final(out)@),
{
    proof {
        reveal_strlit("null");
        reveal_strlit("true");
        reveal_strlit("false");
    }
    match node {
        Node::Null => out.append("null"),
        Node::Boolean(b) => {
            if *b {
                out.append("true")
            } else {
                out.append("false")
            }
        },
        Node::Number(n) => {
            write_number(out, n);
            assert(clean(old(out)@) ==> clean(out@));
        },
        Node::Str(s) => write_string(out, s.as_str()),
        _ => {},
    }
    proof {
        if clean(old(out)@) && !(node is Number) && !(node is Str) {
            lemma_clean_concat(old(out)@, scalar_encoding(*node));
        }
    }
}

pub proof fn lemma_items_step(nodes: Seq<Node>, items: Seq<usize>, bound: nat, i: int)
    requires
        0 <= i < items.len(),
        (items[i] as nat) < bound,
    ensures
        items_encoding(nodes, items.subrange(0, i + 1), bound) == items_encoding(nodes, items.subrange(0, i), bound)
            + (if i > 0 { seq![','] } else { Seq::<char>::empty() }) + encoding(nodes, items[i] as nat),
{
    let p = items.subrange(0, i + 1);
    assert(p.drop_last() == items.subrange(0, i));
}

pub proof fn lemma_members_step(nodes: Seq<Node>, members: Seq<(String, usize)>, bound: nat, i: int)
    requires
        0 <= i < members.len(),
        (members[i].1 as nat) < bound,
    ensures
        members_encoding(nodes, members.subrange(0, i + 1), bound) == members_encoding(nodes, members.subrange(0, i), bound)
            + (if i > 0 { seq![','] } else { Seq::<char>::empty() }) + member_key(members[i].0@)
            + encoding(nodes, members[i].1 as nat),
{
    let p = members.subrange(0, i + 1);
    assert(p.drop_last() == members.subrange(0, i));
}

/// Writes a document in its canonical compact encoding.
pub struct DumpGenerator {
    code: String,
}

impl View for DumpGenerator {
    type V = Seq<char>;

    closed spec fn view(&self) -> Seq<char> {
        self.code@
    }
}

impl DumpGenerator {
    pub fn new() -> (g: DumpGenerator)
        ensures
            g@ == Seq::<char>::empty(),
    {
        DumpGenerator { code: String::new() }
    }

    pub fn consume(self) -> (r: String)
        ensures
            r@ == self@,
    {
        self.code
    }

    /// Appends the encoding of node `id` of `doc`.
    pub fn write_json(&mut self, doc: &Document, id: usize)
        requires
            doc.wf(),
            id < doc@.len(),
        ensures
            final(self)@ == old(self)@ + encoding(doc@, id as nat),
        decreases id,
    {
        let node = doc.node(id);
        proof {
            reveal_strlit("[");
            reveal_strlit("]");
            reveal_strlit("{");
            reveal_strlit("}");
            reveal_strlit(",");
            reveal_strlit(":");
            assert(children_below(doc@[id as int], id as nat));
        }
        match node {
            Node::Array(items) => {
                self.code.append("[");
                assert(forall|k: int| 0 <= k < items@.len() ==> (items@[k] as nat) < id as nat);
                let mut i: usize = 0;
                while i < items.len()
                    invariant
                        doc.wf(),
                        id < doc@.len(),
                        *node == doc@[id as int],
                        forall|k: int| 0 <= k < items@.len() ==> (items@[k] as nat) < id as nat,
                        doc@[id as int] == Node::Array(*items),
                        i <= items@.len(),
                        self@ == old(self)@ + seq!['['] + items_encoding(doc@, items@.subrange(0, i as int), id as nat),
                    decreases items@.len() - i,
                {
                    proof { reveal_strlit(","); }
                    if i > 0 {
                        self.code.append(",");
                    }
                    assert((items@[i as int] as nat) < id as nat);
                    self.write_json(doc, items[i]);
                    proof {
                        lemma_items_step(doc@, items@, id as nat, i as int);
                        assert(self@ =~= old(self)@ + seq!['['] + items_encoding(doc@, items@.subrange(0, i + 1), id as nat));
                    }
                    i = i + 1;
                }
                self.code.append("]");
                assert(items@.subrange(0, items@.len() as int) == items@);
            },
            Node::Object(members) => {
                self.code.append("{");
                assert(forall|k: int| 0 <= k < members@.len() ==> (members@[k].1 as nat) < id as nat);
                let mut i: usize = 0;
                while i < members.len()
                    invariant
                        doc.wf(),
                        id < doc@.len(),
                        *node == doc@[id as int],
                        forall|k: int| 0 <= k < members@.len() ==> (members@[k].1 as nat) < id as nat,
                        doc@[id as int] == Node::Object(*members),
                        i <= members@.len(),
                        self@ == old(self)@ + seq!['{'] + members_encoding(doc@, members@.subrange(0, i as int), id as nat),
                    decreases members@.len() - i,
                {
                    proof {
                        reveal_strlit(",");
                        reveal_strlit(":");
                    }
                    if i > 0 {
                        self.code.append(",");
                    }
                    write_string(&mut self.code, members[i].0.as_str());
                    self.code.append(":");
                    assert((members@[i as int].1 as nat) < id as nat);
                    self.write_json(doc, members[i].1);
                    proof {
                        lemma_members_step(doc@, members@, id as nat, i as int);
                        assert(self@ =~= old(self)@ + seq!['{'] + members_encoding(doc@, members@.subrange(0, i + 1), id as nat));
                    }
                    i = i + 1;
                }
                self.code.append("}");
                assert(members@.subrange(0, members@.len() as int) == members@);
            },
            _ => write_scalar(&mut self.code, node),
        }
    }
}

/// The canonical compact encoding of node `root` of `doc`.
pub fn dump(doc: &Document, root: usize) -> (r: String)
    requires
        doc.wf(),
        root < doc@.len(),
    ensures
        r@ == encoding(doc@, root as nat),
{
    let mut gen = DumpGenerator::new();
    gen.write_json(doc, root);
    gen.consume()
}

} // verus!
