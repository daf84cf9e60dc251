//! The text model: a raw multi-line target string becomes an ordered
//! collection of lines, each a sequence of typing elements (visible
//! characters plus one end-of-line marker), with the stripped leading
//! whitespace of every source line recorded as its indent.

use vstd::prelude::*;
use vstd::string::StrSliceExecFns;

verus! {

/// The expected or typed value of one typing position: a visible
/// character, or the end-of-line marker matched by pressing Enter.
#[derive(Clone, Copy, Debug, PartialEq, Eq, Structural)]
pub enum ElementValue {
    Char(char),
    Newline,
}

/// One typing position: its target value and, once the cursor has
/// visited it, the value the user actually typed there.
#[derive(Clone, Copy, Debug, PartialEq, Eq)]
pub struct Element {
    pub target: ElementValue,
    pub value: Option<ElementValue>,
}

impl Element {
    /// The element has been typed and matches its target exactly.
    pub open spec fn is_correct(self) -> bool {
        self.value == Some(self.target)
    }

    /// The cursor has never visited the element (or a backspace
    /// cleared it again).
    pub open spec fn is_pending(self) -> bool {
        self.value is None
    }

    /// The character a statistics scan attributes the element to: the
    /// target character itself, with the newline character standing in
    /// for the end-of-line marker.
    pub open spec fn key_char(self) -> char {
        match self.target {
            ElementValue::Char(c) => c,
            ElementValue::Newline => '\n',
        }
    }
}

/// One line of the target text: the count of stripped leading
/// whitespace characters, and the typing elements of the line's
/// remaining characters followed by exactly one end-of-line marker.
pub struct Line(pub u8, pub Vec<Element>);

/// The mathematical value of a [`Line`].
#[verifier::ext_equal]
pub ghost struct LineV {
    pub indent: u8,
    pub elements: Seq<Element>,
}

impl View for Line {
    type V = LineV;

    open spec fn view(&self) -> LineV {
        LineV { indent: self.0, elements: self.1@ }
    }
}

impl LineV {
    /// A structurally well-formed line: at least one element, and the
    /// end-of-line marker stands at the last position and nowhere else.
    pub open spec fn wf(self) -> bool {
        &&& self.elements.len() >= 1
        &&& forall|j: int|
            0 <= j < self.elements.len() ==> ((#[trigger] self.elements[j].target)
                is Newline <==> j == self.elements.len() - 1)
    }
}

/// The whitespace characters stripped from line edges: the blank, the
/// horizontal tab, and the carriage return (so that CRLF-delimited
/// text loses its trailing carriage returns).
pub open spec fn is_space(c: char) -> bool {
    c == ' ' || c == '\t' || c == '\r'
}

/// Executable twin of [`is_space`].
pub fn is_space_char(c: char) -> (r: bool)
    ensures
        r == is_space(c),
{
    c == ' ' || c == '\t' || c == '\r'
}

/// How many leading whitespace characters a raw line carries.
pub open spec fn indent_len(s: Seq<char>) -> int
    decreases s.len(),
{
    if s.len() == 0 {
        0
    } else if is_space(s[0]) {
        1 + indent_len(s.drop_first())
    } else {
        0
    }
}

/// The length a sequence keeps once trailing whitespace is stripped.
pub open spec fn trim_end_len(s: Seq<char>) -> int
    decreases s.len(),
{
    if s.len() == 0 {
        0
    } else if is_space(s.last()) {
        trim_end_len(s.drop_last())
    } else {
        s.len() as int
    }
}

/// A raw line with leading and trailing whitespace stripped.
pub open spec fn trimmed(s: Seq<char>) -> Seq<char> {
    let t = s.skip(indent_len(s));
    t.take(trim_end_len(t))
}

/// The typing elements a stripped line yields: one untyped `Char`
/// element per character, then one untyped end-of-line marker.
/// The untyped element expecting the given character.
pub open spec fn char_elem(c: char) -> Element {
    Element { target: ElementValue::Char(c), value: None }
}

/// The untyped end-of-line element.
pub open spec fn newline_elem() -> Element {
    Element { target: ElementValue::Newline, value: None }
}

pub open spec fn elems_of(t: Seq<char>) -> Seq<Element>
    decreases t.len(),
{
    if t.len() == 0 {
        seq![newline_elem()]
    } else {
        seq![char_elem(t[0])] + elems_of(t.drop_first())
    }
}

/// `elems_of` yields one `Char` element per character, in order, and
/// the end-of-line marker after them.
pub proof fn lemma_elems_of(t: Seq<char>)
    ensures
        elems_of(t).len() == t.len() + 1,
        forall|j: int| 0 <= j < t.len() ==> #[trigger] elems_of(t)[j] == char_elem(t[j]),
        elems_of(t)[t.len() as int] == newline_elem(),
    decreases t.len(),
{
    if t.len() > 0 {
        lemma_elems_of(t.drop_first());
        assert forall|j: int| 0 <= j < t.len() implies #[trigger] elems_of(t)[j] == char_elem(
            t[j],
        ) by {
            if j > 0 {
                assert(elems_of(t)[j] == elems_of(t.drop_first())[j - 1]);
                assert(t.drop_first()[j - 1] == t[j]);
            }
        }
    }
}

/// The line the text model builds from one raw source line.
pub open spec fn line_of(raw: Seq<char>) -> LineV {
    LineV { indent: indent_len(raw) as u8, elements: elems_of(trimmed(raw)) }
}

/// A raw text split at every newline character; one (possibly empty)
/// raw line more than there are newline characters.
pub open spec fn split_lines(s: Seq<char>) -> Seq<Seq<char>>
    decreases s.len(),
{
    if s.len() == 0 {
        seq![Seq::<char>::empty()]
    } else if s[0] == '\n' {
        seq![Seq::<char>::empty()] + split_lines(s.drop_first())
    } else {
        let rest = split_lines(s.drop_first());
        seq![seq![s[0]] + rest[0]] + rest.drop_first()
    }
}

/// The whole text model of a raw target text.
pub open spec fn lines_of(s: Seq<char>) -> Seq<LineV> {
    split_lines(s).map(|i: int, raw: Seq<char>| line_of(raw))
}

/// The mathematical value of a built line collection.
pub open spec fn lines_view(v: Seq<Line>) -> Seq<LineV> {
    v.map(|i: int, l: Line| l@)
}

/// `indent_len` counts exactly the leading whitespace: everything
/// before it is whitespace and the character at it (if any) is not.
pub proof fn lemma_indent_len(s: Seq<char>)
    ensures
        0 <= indent_len(s) <= s.len(),
        forall|k: int| 0 <= k < indent_len(s) ==> is_space(s[k]),
        indent_len(s) < s.len() ==> !is_space(s[indent_len(s)]),
    decreases s.len(),
{
    if s.len() == 0 {
    } else if is_space(s[0]) {
        lemma_indent_len(s.drop_first());
        assert forall|k: int| 0 <= k < indent_len(s) implies is_space(s[k]) by {
            if k > 0 {
                assert(s[k] == s.drop_first()[k - 1]);
            }
        }
        if indent_len(s) < s.len() {
            assert(s[indent_len(s)] == s.drop_first()[indent_len(s.drop_first())]);
        }
    }
}

/// Any index with `indent_len`'s characterization is `indent_len`.
pub proof fn lemma_indent_len_unique(s: Seq<char>, j: int)
    requires
        0 <= j <= s.len(),
        forall|k: int| 0 <= k < j ==> is_space(#[trigger] s[k]),
        j < s.len() ==> !is_space(s[j]),
    ensures
        j == indent_len(s),
{
    lemma_indent_len(s);
}

/// `trim_end_len` keeps exactly the part before the trailing
/// whitespace: everything at or past it is whitespace and the
/// character just before it (if any) is not.
pub proof fn lemma_trim_end_len(s: Seq<char>)
    ensures
        0 <= trim_end_len(s) <= s.len(),
        trim_end_len(s) > 0 ==> !is_space(s[trim_end_len(s) - 1]),
        forall|k: int| trim_end_len(s) <= k < s.len() ==> is_space(s[k]),
    decreases s.len(),
{
    if s.len() == 0 {
    } else if is_space(s.last()) {
        lemma_trim_end_len(s.drop_last());
        assert forall|k: int| trim_end_len(s) <= k < s.len() implies is_space(s[k]) by {
            if k < s.len() - 1 {
                assert(s[k] == s.drop_last()[k]);
            }
        }
    }
}

/// Any length with `trim_end_len`'s characterization is `trim_end_len`.
pub proof fn lemma_trim_end_len_unique(s: Seq<char>, m: int)
    requires
        0 <= m <= s.len(),
        m > 0 ==> !is_space(s[m - 1]),
        forall|k: int| m <= k < s.len() ==> is_space(#[trigger] s[k]),
    ensures
        m == trim_end_len(s),
{
    lemma_trim_end_len(s);
}

/// A raw text splits into at least one raw line.
pub proof fn lemma_split_lines_len(s: Seq<char>)
    ensures
        split_lines(s).len() >= 1,
    decreases s.len(),
{
    if s.len() > 0 {
        lemma_split_lines_len(s.drop_first());
    }
}

/// Appending one character to a raw text either extends the last raw
/// line (an ordinary character) or opens a new empty one (a newline).
pub proof fn lemma_split_lines_push(s: Seq<char>, c: char)
    ensures
        c == '\n' ==> split_lines(s.push(c)) == split_lines(s).push(Seq::<char>::empty()),
        c != '\n' ==> split_lines(s.push(c)) == split_lines(s).update(
            split_lines(s).len() - 1,
            split_lines(s).last().push(c),
        ),
    decreases s.len(),
{
    lemma_split_lines_len(s);
    if s.len() == 0 {
        assert(s.push(c).drop_first() =~= Seq::<char>::empty());
        assert(split_lines(Seq::<char>::empty()) == seq![Seq::<char>::empty()]);
        if c == '\n' {
            assert(split_lines(s.push(c)) =~~= split_lines(s).push(Seq::<char>::empty()));
        } else {
            assert(seq![s.push(c)[0]] + split_lines(s.push(c).drop_first())[0] =~= seq![c]);
            assert(split_lines(s.push(c)) =~~= split_lines(s).update(
                split_lines(s).len() - 1,
                split_lines(s).last().push(c),
            ));
        }
    } else {
        lemma_split_lines_push(s.drop_first(), c);
        lemma_split_lines_len(s.drop_first());
        assert(s.push(c).drop_first() =~= s.drop_first().push(c));
        assert(s.push(c)[0] == s[0]);
        if c == '\n' {
            assert(split_lines(s.push(c)) =~~= split_lines(s).push(Seq::<char>::empty()));
        } else {
            assert(split_lines(s.push(c)) =~~= split_lines(s).update(
                split_lines(s).len() - 1,
                split_lines(s).last().push(c),
            ));
        }
    }
}

/// Every line the text model builds is structurally well-formed.
pub proof fn lemma_line_of_wf(raw: Seq<char>)
    ensures
        line_of(raw).wf(),
{
    lemma_elems_of(trimmed(raw));
}

/// A run of space characters.
pub open spec fn spaces(n: int) -> Seq<char> {
    Seq::new(n as nat, |i: int| ' ')
}

/// The source line a built line stands for: its indent as spaces,
/// then the target characters of its elements (the end-of-line marker
/// has no character).
pub open spec fn reconstruct_line(l: LineV) -> Seq<char> {
    spaces(l.indent as int) + Seq::new(
        (l.elements.len() - 1) as nat,
        |i: int| l.elements[i].key_char(),
    )
}

/// Indentation round-trip: a source line whose leading whitespace is
/// spaces (at most as many as the indent field holds) and that has no
/// trailing whitespace is reproduced exactly by its built line —
/// indent spaces, then the element targets.
pub proof fn lemma_indent_round_trip(raw: Seq<char>)
    requires
        forall|j: int| 0 <= j < indent_len(raw) ==> raw[j] == ' ',
        indent_len(raw) <= 255,
        trim_end_len(raw.skip(indent_len(raw))) == raw.skip(indent_len(raw)).len(),
    ensures
        reconstruct_line(line_of(raw)) == raw,
{
    lemma_indent_len(raw);
    let n = indent_len(raw);
    let t = raw.skip(n);
    assert(trimmed(raw) =~= t);
    lemma_elems_of(t);
    let l = line_of(raw);
    assert(l.indent as int == n);
    assert forall|i: int| 0 <= i < t.len() implies l.elements[i].key_char() == t[i] by {
        assert(l.elements[i] == char_elem(t[i]));
    }
    assert(reconstruct_line(l) =~= raw);
}

/// A raw text yields at least one line, and every line it yields is
/// structurally well-formed.
pub proof fn lemma_lines_of_wf(s: Seq<char>)
    ensures
        lines_of(s).len() >= 1,
        forall|i: int| 0 <= i < lines_of(s).len() ==> (#[trigger] lines_of(s)[i]).wf(),
{
    lemma_split_lines_len(s);
    assert forall|i: int| 0 <= i < lines_of(s).len() implies (#[trigger] lines_of(s)[i]).wf() by {
        lemma_line_of_wf(split_lines(s)[i]);
        assert(lines_of(s)[i] == line_of(split_lines(s)[i]));
    }
}

/// A freshly built text model has no element typed.
pub proof fn lemma_lines_of_untyped(s: Seq<char>)
    ensures
        forall|li: int, ei: int|
            0 <= li < lines_of(s).len() && 0 <= ei < lines_of(s)[li].elements.len() ==> (
            #[trigger] lines_of(s)[li].elements[ei].value) is None,
{
    assert forall|li: int, ei: int|
        0 <= li < lines_of(s).len() && 0 <= ei < lines_of(s)[li].elements.len() implies (
    #[trigger] lines_of(s)[li].elements[ei].value) is None by {
        let raw = split_lines(s)[li];
        assert(lines_of(s)[li] == line_of(raw));
        lemma_elems_of(trimmed(raw));
        let t = trimmed(raw);
        if ei < t.len() {
            assert(lines_of(s)[li].elements[ei] == char_elem(t[ei]));
        } else {
            assert(lines_of(s)[li].elements[ei] == newline_elem());
        }
    }
}

/// The characters of a string, in order.
pub fn chars_vec(s: &str) -> (r: Vec<char>)
    ensures
        r@ == s@,
{
    let n = s.unicode_len();
    let mut r: Vec<char> = Vec::new();
    let mut i: usize = 0;
    while i < n
        invariant
            n == s@.len(),
            i <= n,
            r@ == s@.take(i as int),
        decreases n - i,
    {
        r.push(s.get_char(i));
        assert(r@ =~= s@.take(i + 1 as int));
        i = i + 1;
    }
    assert(r@ =~= s@);
    r
}

/// Builds the [`Line`] of one raw source line: leading and trailing
/// whitespace are stripped, the leading amount is recorded as the
/// indent, and the rest becomes untyped elements plus the marker.
pub fn build_line(raw: &Vec<char>) -> (l: Line)
    ensures
        l@ == line_of(raw@),
        l@.wf(),
{
    let n = raw.len();
    let mut start: usize = 0;
    while start < n && is_space_char(raw[start])
        invariant
            start <= n,
            n == raw@.len(),
            forall|k: int| 0 <= k < start ==> is_space(#[trigger] raw@[k]),
        decreases n - start,
    {
        start = start + 1;
    }
    proof {
        lemma_indent_len_unique(raw@, start as int);
    }
    let mut end: usize = n;
    while end > start && is_space_char(raw[end - 1])
        invariant
            start <= end <= n,
            n == raw@.len(),
            forall|k: int| end <= k < n ==> is_space(#[trigger] raw@[k]),
        decreases end,
    {
        end = end - 1;
    }
    proof {
        let t = raw@.skip(start as int);
        assert forall|k: int| end - start <= k < t.len() implies is_space(#[trigger] t[k]) by {
            assert(t[k] == raw@[start + k]);
        }
        if end > start {
            assert(t[end - start - 1] == raw@[end - 1]);
        }
        lemma_trim_end_len_unique(t, end - start);
        assert(trimmed(raw@) =~= raw@.subrange(start as int, end as int));
    }
    let mut elements: Vec<Element> = Vec::new();
    let mut k: usize = start;
    while k < end
        invariant
            start <= k <= end <= n,
            n == raw@.len(),
            elements@.len() == k - start,
            forall|m: int|
                0 <= m < k - start ==> #[trigger] elements@[m] == char_elem(raw@[start + m]),
        decreases end - k,
    {
        let ghost pre = elements@;
        let c = raw[k];
        elements.push(Element { target: ElementValue::Char(c), value: None });
        proof {
            assert forall|m: int|
                0 <= m < k + 1 - start implies #[trigger] elements@[m] == char_elem(
                raw@[start + m],
            ) by {
                if m < k - start {
                    assert(elements@[m] == pre[m]);
                } else {
                    assert(elements@[m] == char_elem(raw@[k as int]));
                }
            }
        }
        k = k + 1;
    }
    elements.push(Element { target: ElementValue::Newline, value: None });
    let indent: u8 = #[verifier::truncate] (start as u8);
    let l = Line(indent, elements);
    proof {
        lemma_elems_of(trimmed(raw@));
        lemma_line_of_wf(raw@);
        assert(l@.elements =~= elems_of(trimmed(raw@)));
        assert(l@ =~= line_of(raw@));
    }
    l
}

/// Builds the whole text model of a raw target text: one [`Line`] per
/// newline-delimited source line.
pub fn get_lines(target: &str) -> (r: Vec<Line>)
    ensures
        lines_view(r@) == lines_of(target@),
        r@.len() >= 1,
        forall|i: int| 0 <= i < r@.len() ==> (#[trigger] r@[i]@).wf(),
{
    let chars = chars_vec(target);
    let n = chars.len();
    let mut acc: Vec<Line> = Vec::new();
    let mut cur: Vec<char> = Vec::new();
    let mut i: usize = 0;
    proof {
        assert(chars@.take(0) =~= Seq::<char>::empty());
    }
    while i < n
        invariant
            i <= n,
            n == chars@.len(),
            chars@ == target@,
            split_lines(chars@.take(i as int)).len() == acc@.len() + 1,
            split_lines(chars@.take(i as int)).last() == cur@,
            forall|k: int|
                0 <= k < acc@.len() ==> #[trigger] acc@[k]@ == line_of(
                    split_lines(chars@.take(i as int))[k],
                ) && acc@[k]@.wf(),
        decreases n - i,
    {
        let c = chars[i];
        proof {
            assert(chars@.take(i + 1 as int) =~= chars@.take(i as int).push(chars@[i as int]));
            lemma_split_lines_push(chars@.take(i as int), chars@[i as int]);
        }
        if c == '\n' {
            let line = build_line(&cur);
            acc.push(line);
            cur = Vec::new();
        } else {
            cur.push(c);
        }
        i = i + 1;
    }
    proof {
        assert(chars@.take(n as int) =~= chars@);
    }
    let line = build_line(&cur);
    acc.push(line);
    proof {
        lemma_split_lines_len(target@);
        assert(lines_view(acc@) =~= lines_of(target@));
    }
    acc
}

} // verus!
