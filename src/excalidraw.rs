//! The Excalidraw document model and its JSON writer.
//!
//! Coordinates, sizes and binding values are fixed-point numbers counted in
//! tenths of a diagram unit: `625` stands for `62.5`.
use vstd::prelude::*;
use vstd::string::*;

verus! {

/// The character of a digit; `d` below 16 gives `0`-`9` then `a`-`f`.
pub open spec fn digit_char(d: int) -> char {
    if d == 0 { '0' } else if d == 1 { '1' } else if d == 2 { '2' } else if d == 3 { '3' }
    else if d == 4 { '4' } else if d == 5 { '5' } else if d == 6 { '6' } else if d == 7 { '7' }
    else if d == 8 { '8' } else if d == 9 { '9' } else if d == 10 { 'a' } else if d == 11 { 'b' }
    else if d == 12 { 'c' } else if d == 13 { 'd' } else if d == 14 { 'e' } else { 'f' }
}

/// Decimal digits of a natural number, most significant first.
pub open spec fn nat_digits(n: nat) -> Seq<char>
    decreases n,
{
    if n < 10 {
        seq![digit_char(n as int)]
    } else {
        nat_digits(n / 10) + seq![digit_char((n % 10) as int)]
    }
}

/// The text of a fixed-point value as a JSON number: sign, whole part, and a
/// single decimal digit only when the tenths are not zero.
pub open spec fn tenths_text(v: int) -> Seq<char> {
    let m: nat = if v < 0 { (-v) as nat } else { v as nat };
    let sign: Seq<char> = if v < 0 { seq!['-'] } else { Seq::empty() };
    let frac: Seq<char> = if m % 10 == 0 { Seq::empty() } else { seq!['.', digit_char((m % 10) as int)] };
    sign + nat_digits(m / 10) + frac
}

fn digit_str(d: u64) -> (r: &'static str)
    requires
        d < 16,
    ensures
        r@ == seq![digit_char(d as int)],
{
    proof {
        reveal_strlit("0"); reveal_strlit("1"); reveal_strlit("2"); reveal_strlit("3");
        reveal_strlit("4"); reveal_strlit("5"); reveal_strlit("6"); reveal_strlit("7");
        reveal_strlit("8"); reveal_strlit("9"); reveal_strlit("a"); reveal_strlit("b");
        reveal_strlit("c"); reveal_strlit("d"); reveal_strlit("e"); reveal_strlit("f");
    }
    let r = if d == 0 { "0" } else if d == 1 { "1" } else if d == 2 { "2" } else if d == 3 { "3" }
    else if d == 4 { "4" } else if d == 5 { "5" } else if d == 6 { "6" } else if d == 7 { "7" }
    else if d == 8 { "8" } else if d == 9 { "9" } else if d == 10 { "a" } else if d == 11 { "b" }
    else if d == 12 { "c" } else if d == 13 { "d" } else if d == 14 { "e" } else { "f" };
    assert(r@ =~= seq![digit_char(d as int)]);
    r
}

fn push_digits(out: &mut String, n: u64)
    ensures
        final(out)@ == old(out)@ + nat_digits(n as nat),
    decreases n,
{
    if n >= 10 {
        push_digits(out, n / 10);
    }
    out.append(digit_str(n % 10));
}

/// Appends the JSON number text of the fixed-point value `v`.
pub fn push_tenths(out: &mut String, v: i64)
    ensures
        final(out)@ == old(out)@ + tenths_text(v as int),
{
    let m: u64 = if v < 0 { ((-(v + 1)) as u64) + 1 } else { v as u64 };
    proof { reveal_strlit("-"); reveal_strlit("."); }
    if v < 0 {
        out.append("-");
    }
    push_digits(out, m / 10);
    if m % 10 != 0 {
        out.append(".");
        out.append(digit_str(m % 10));
    }
    proof {
        let sign: Seq<char> = if v < 0 { seq!['-'] } else { Seq::empty() };
        let frac: Seq<char> = if m % 10 == 0 { Seq::empty() } else { seq!['.', digit_char((m % 10) as int)] };
        assert(tenths_text(v as int) == sign + nat_digits((m / 10) as nat) + frac);
        assert(final(out)@ =~= old(out)@ + tenths_text(v as int));
    }
}

/// The JSON escape of one character.
pub open spec fn escape_char(c: char) -> Seq<char> {
    if c == '"' {
        seq!['\\', '"']
    } else if c == '\\' {
        seq!['\\', '\\']
    } else if c == '\n' {
        seq!['\\', 'n']
    } else if c == '\r' {
        seq!['\\', 'r']
    } else if c == '\t' {
        seq!['\\', 't']
    } else if (c as u32) < 32 {
        seq!['\\', 'u', '0', '0', digit_char((c as u32) as int / 16), digit_char((c as u32) as int % 16)]
    } else {
        seq![c]
    }
}

/// The characters of `s`, each escaped for a JSON string literal.
pub open spec fn escaped(s: Seq<char>) -> Seq<char>
    decreases s.len(),
{
    if s.len() == 0 {
        Seq::empty()
    } else {
        escaped(s.drop_last()) + escape_char(s.last())
    }
}

/// A JSON string literal holding `s`.
pub open spec fn json_string(s: Seq<char>) -> Seq<char> {
    seq!['"'] + escaped(s) + seq!['"']
}

/// The texts of `items` joined by commas.
pub open spec fn join_commas(items: Seq<Seq<char>>) -> Seq<char>
    decreases items.len(),
{
    if items.len() == 0 {
        Seq::empty()
    } else if items.len() == 1 {
        items[0]
    } else {
        join_commas(items.drop_last()) + seq![','] + items.last()
    }
}

fn push_escaped_char(out: &mut String, s: &str, i: usize)
    requires
        i < s@.len() <= usize::MAX,
    ensures
        final(out)@ == old(out)@ + escape_char(s@[i as int]),
{
    let c = s.get_char(i);
    proof {
        reveal_strlit("\\\""); reveal_strlit("\\\\"); reveal_strlit("\\n");
        reveal_strlit("\\r"); reveal_strlit("\\t"); reveal_strlit("\\u00");
    }
    if c == '"' {
        out.append("\\\"");
    } else if c == '\\' {
        out.append("\\\\");
    } else if c == '\n' {
        out.append("\\n");
    } else if c == '\r' {
        out.append("\\r");
    } else if c == '\t' {
        out.append("\\t");
    } else if (c as u32) < 32 {
        out.append("\\u00");
        out.append(digit_str((c as u32 / 16) as u64));
        out.append(digit_str((c as u32 % 16) as u64));
    } else {
        out.append(s.substring_char(i, i + 1));
        assert(s@.subrange(i as int, i + 1) =~= seq![c]);
    }
    assert(final(out)@ =~= old(out)@ + escape_char(s@[i as int]));
}

/// Appends `s` as a JSON string literal.
pub fn push_json_string(out: &mut String, s: &str)
    ensures
        final(out)@ == old(out)@ + json_string(s@),
{
    let ghost start = out@;
    proof { reveal_strlit("\""); }
    out.append("\"");
    let n = s.unicode_len();
    let mut i: usize = 0;
    while i < n
        invariant
            n == s@.len(),
            i <= n,
            out@ == start + seq!['"'] + escaped(s@.subrange(0, i as int)),
        decreases n - i,
    {
        push_escaped_char(out, s, i);
        proof {
            let t = s@.subrange(0, i + 1);
            assert(t.drop_last() =~= s@.subrange(0, i as int));
            assert(t.last() == s@[i as int]);
        }
        i = i + 1;
    }
    out.append("\"");
    assert(s@.subrange(0, n as int) =~= s@);
    assert(out@ =~= start + json_string(s@));
}

/// Joining one more item onto a comma-separated list.
pub proof fn lemma_join_push(items: Seq<Seq<char>>, x: Seq<char>)
    ensures
        join_commas(items.push(x)) == if items.len() == 0 {
            x
        } else {
            join_commas(items) + seq![','] + x
        },
{
    assert(items.push(x).drop_last() =~= items);
    if items.len() == 0 {
        assert(items.push(x)[0] == x);
    }
}

/// A point of a polyline.
#[derive(Clone, Copy, Debug, PartialEq, Eq, Structural)]
pub struct ExcalidrawPoint {
    pub x: i64,
    pub y: i64,
}

impl ExcalidrawPoint {
    pub fn new(x: i64, y: i64) -> (r: Self)
        ensures
            r.x == x,
            r.y == y,
    {
        ExcalidrawPoint { x, y }
    }

    /// The JSON text of the point: a two-number array.
    pub open spec fn json(self) -> Seq<char> {
        "[\n            "@ + tenths_text(self.x as int) + ",\n            "@ + tenths_text(self.y as int)
            + "\n        ]"@
    }

    pub fn push_json(&self, out: &mut String)
        ensures
            final(out)@ == old(out)@ + self.json(),
    {
        let ghost start = out@;
        out.append("[\n            ");
        push_tenths(out, self.x);
        out.append(",\n            ");
        push_tenths(out, self.y);
        out.append("\n        ]");
        assert(out@ =~= start + self.json());
    }

    pub fn to_json(&self) -> (r: String)
        ensures
            r@ == self.json(),
    {
        let mut out = String::new();
        self.push_json(&mut out);
        assert(out@ =~= self.json());
        out
    }
}

/// A reference from an element to another element bound to it.
pub struct ExcalidrawBoundElement {
    pub id: String,
    pub element_type: String,
}

impl ExcalidrawBoundElement {
    pub open spec fn json(self) -> Seq<char> {
        "{\n            \"id\": "@ + json_string(self.id@) + ",\n            \"type\": "@ + json_string(self.element_type@) + "\n        }"@
    }

    pub fn push_json(&self, out: &mut String)
        ensures
            final(out)@ == old(out)@ + self.json(),
    {
        let ghost start = out@;
        out.append("{\n            \"id\": ");
        push_json_string(out, self.id.as_str());
        out.append(",\n            \"type\": ");
        push_json_string(out, self.element_type.as_str());
        out.append("\n        }");
        assert(out@ =~= start + self.json());
    }

    pub fn to_json(&self) -> (r: String)
        ensures
            r@ == self.json(),
    {
        let mut out = String::new();
        self.push_json(&mut out);
        assert(out@ =~= self.json());
        out
    }
}

/// The element an arrow end is attached to; an empty id means unattached.
pub struct ExcalidrawBinding {
    pub element_id: String,
    pub focus: i64,
    pub gap: i64,
}

impl ExcalidrawBinding {
    /// An unattached binding.
    pub fn new() -> (r: Self)
        ensures
            r.element_id@ == Seq::<char>::empty(),
            r.focus == 0,
            r.gap == 0,
    {
        ExcalidrawBinding { element_id: String::new(), focus: 0, gap: 0 }
    }

    /// A binding attached to the element with id `element_id`.
    pub fn attached_to(element_id: String) -> (r: Self)
        ensures
            r.element_id == element_id,
            r.focus == 0,
            r.gap == 0,
    {
        ExcalidrawBinding { element_id, focus: 0, gap: 0 }
    }

    pub open spec fn json(self) -> Seq<char> {
        "{\n            \"elementId\": "@ + json_string(self.element_id@) + ",\n            \"focus\": "@ + tenths_text(self.focus as int)
            + ",\n            \"gap\": "@ + tenths_text(self.gap as int) + "\n        }"@
    }

    pub fn push_json(&self, out: &mut String)
        ensures
            final(out)@ == old(out)@ + self.json(),
    {
        let ghost start = out@;
        out.append("{\n            \"elementId\": ");
        push_json_string(out, self.element_id.as_str());
        out.append(",\n            \"focus\": ");
        push_tenths(out, self.focus);
        out.append(",\n            \"gap\": ");
        push_tenths(out, self.gap);
        out.append("\n        }");
        assert(out@ =~= start + self.json());
    }

    pub fn to_json(&self) -> (r: String)
        ensures
            r@ == self.json(),
    {
        let mut out = String::new();
        self.push_json(&mut out);
        assert(out@ =~= self.json());
        out
    }
}

/// Presentation defaults of a document.
pub struct ExcalidrawAppState {
    pub view_background_color: String,
}

impl ExcalidrawAppState {
    /// A white background.
    pub fn new() -> (r: Self)
        ensures
            r.view_background_color@ == "#ffffff"@,
    {
        ExcalidrawAppState { view_background_color: String::from_str("#ffffff") }
    }

    pub open spec fn json(self) -> Seq<char> {
        "{\n            \"viewBackgroundColor\": "@ + json_string(self.view_background_color@) + "\n        }"@
    }

    pub fn push_json(&self, out: &mut String)
        ensures
            final(out)@ == old(out)@ + self.json(),
    {
        let ghost start = out@;
        out.append("{\n            \"viewBackgroundColor\": ");
        push_json_string(out, self.view_background_color.as_str());
        out.append("\n        }");
        assert(out@ =~= start + self.json());
    }

    pub fn to_json(&self) -> (r: String)
        ensures
            r@ == self.json(),
    {
        let mut out = String::new();
        self.push_json(&mut out);
        assert(out@ =~= self.json());
        out
    }
}

/// What an element draws.
#[derive(Clone, Copy, Debug, PartialEq, Eq, Structural)]
pub enum ElementKind {
    Text,
    Arrow,
}

impl ElementKind {
    pub open spec fn name(self) -> Seq<char> {
        match self {
            ElementKind::Text => "text"@,
            ElementKind::Arrow => "arrow"@,
        }
    }

    pub fn as_str(&self) -> (r: &'static str)
        ensures
            r@ == self.name(),
    {
        match self {
            ElementKind::Text => "text",
            ElementKind::Arrow => "arrow",
        }
    }
}

/// The stroke color of every element this library draws.
pub open spec fn black() -> Seq<char> {
    "#000000"@
}

/// One drawn element: a text label or an arrow.
pub struct ExcalidrawElement {
    pub id: String,
    pub kind: ElementKind,
    pub x: i64,
    pub y: i64,
    pub width: i64,
    pub height: i64,
    pub text: String,
    pub bound_elements: Vec<ExcalidrawBoundElement>,
    pub points: Vec<ExcalidrawPoint>,
    pub start_binding: ExcalidrawBinding,
    pub end_binding: ExcalidrawBinding,
    pub stroke_color: String,
}

impl ExcalidrawElement {
    /// A black text element of nominal size 1 x 1 at `(x, y)`.
    pub fn new_text(text: &str, x: i64, y: i64, id: &str) -> (r: Self)
        ensures
            r.id@ == id@,
            r.kind == ElementKind::Text,
            r.x == x,
            r.y == y,
            r.width == 10,
            r.height == 10,
            r.text@ == text@,
            r.bound_elements@.len() == 0,
            r.points@.len() == 0,
            r.start_binding.element_id@.len() == 0,
            r.start_binding.focus == 0,
            r.start_binding.gap == 0,
            r.end_binding.element_id@.len() == 0,
            r.end_binding.focus == 0,
            r.end_binding.gap == 0,
            r.stroke_color@ == black(),
    {
        ExcalidrawElement {
            id: String::from_str(id),
            kind: ElementKind::Text,
            x,
            y,
            width: 10,
            height: 10,
            text: String::from_str(text),
            bound_elements: Vec::new(),
            points: Vec::new(),
            start_binding: ExcalidrawBinding::new(),
            end_binding: ExcalidrawBinding::new(),
            stroke_color: String::from_str("#000000"),
        }
    }

    /// An arrow of nominal size 2 x 2 anchored at `(x, y)`, with the given id,
    /// polyline, color and end bindings.
    pub fn new_arrow_with_id(
        id: String,
        points: Vec<ExcalidrawPoint>,
        x: i64,
        y: i64,
        color: String,
        start_binding: ExcalidrawBinding,
        end_binding: ExcalidrawBinding,
    ) -> (r: Self)
        ensures
            r.id == id,
            r.kind == ElementKind::Arrow,
            r.x == x,
            r.y == y,
            r.width == 20,
            r.height == 20,
            r.text@.len() == 0,
            r.bound_elements@.len() == 0,
            r.points == points,
            r.start_binding == start_binding,
            r.end_binding == end_binding,
            r.stroke_color == color,
    {
        ExcalidrawElement {
            id,
            kind: ElementKind::Arrow,
            x,
            y,
            width: 20,
            height: 20,
            text: String::new(),
            bound_elements: Vec::new(),
            points,
            start_binding,
            end_binding,
            stroke_color: color,
        }
    }

    /// An unattached arrow with a freshly generated id.
    pub fn new_arrow(points: Vec<ExcalidrawPoint>, x: i64, y: i64, color: String) -> (r: Self)
        ensures
            r.id@.len() == 36,
            r.kind == ElementKind::Arrow,
            r.x == x,
            r.y == y,
            r.width == 20,
            r.height == 20,
            r.text@.len() == 0,
            r.bound_elements@.len() == 0,
            r.points == points,
            r.start_binding.element_id@.len() == 0,
            r.start_binding.focus == 0,
            r.start_binding.gap == 0,
            r.end_binding.element_id@.len() == 0,
            r.end_binding.focus == 0,
            r.end_binding.gap == 0,
            r.stroke_color == color,
    {
        let id = fresh_id();
        ExcalidrawElement::new_arrow_with_id(
            id,
            points,
            x,
            y,
            color,
            ExcalidrawBinding::new(),
            ExcalidrawBinding::new(),
        )
    }

    /// The JSON object of the element.
    pub open spec fn json(self) -> Seq<char> {
        self.head_json() + self.lists_json() + self.tail_json()
    }

    pub open spec fn head_json(self) -> Seq<char> {
        "{\n            \"id\": "@ + json_string(self.id@) + ",\n            \"type\": "@ + json_string(self.kind.name()) + ",\n            \"x\": "@
            + tenths_text(self.x as int) + ",\n            \"y\": "@ + tenths_text(self.y as int) + ",\n            \"width\": "@
            + tenths_text(self.width as int) + ",\n            \"height\": "@ + tenths_text(self.height as int)
    }

    pub open spec fn lists_json(self) -> Seq<char> {
        ",\n            \"text\": "@ + json_string(self.text@) + ",\n            \"strokeColor\": "@ + json_string(self.stroke_color@)
            + ",\n            \"boundElements\": ["@ + join_commas(
            self.bound_elements@.map_values(|b: ExcalidrawBoundElement| b.json()),
        ) + "],\n            \"points\": ["@ + join_commas(self.points@.map_values(|p: ExcalidrawPoint| p.json()))
    }

    pub open spec fn tail_json(self) -> Seq<char> {
        "],\n            \"startBinding\": "@ + self.start_binding.json() + ",\n            \"endBinding\": "@
            + self.end_binding.json() + ",\n            \"fontFamily\": 3,\n            \"fontSize\": 20\n        }"@
    }

    fn push_bound_elements(&self, out: &mut String)
        ensures
            final(out)@ == old(out)@ + join_commas(
                self.bound_elements@.map_values(|b: ExcalidrawBoundElement| b.json()),
            ),
    {
        let ghost start = out@;
        let mut i: usize = 0;
        while i < self.bound_elements.len()
            invariant
                i <= self.bound_elements@.len(),
                out@ == start + join_commas(self.bound_elements@.take(i as int).map_values(|b: ExcalidrawBoundElement| b.json())),
            decreases self.bound_elements@.len() - i,
        {
            let ghost prev = self.bound_elements@.take(i as int).map_values(|b: ExcalidrawBoundElement| b.json());
            let ghost item = self.bound_elements@[i as int].json();
            proof {
                reveal_strlit(",");
                assert(","@ =~= seq![',']);
                assert(self.bound_elements@.take(i + 1).map_values(|b: ExcalidrawBoundElement| b.json()) =~= prev.push(item));
                lemma_join_push(prev, item);
            }
            if i > 0 {
                out.append(",");
            }
            self.bound_elements[i].push_json(out);
            assert(out@ =~= start + join_commas(prev.push(item)));
            i = i + 1;
        }
        assert(self.bound_elements@.take(i as int) =~= self.bound_elements@);
    }

    fn push_points(&self, out: &mut String)
        ensures
            final(out)@ == old(out)@ + join_commas(
                self.points@.map_values(|p: ExcalidrawPoint| p.json()),
            ),
    {
        let ghost start = out@;
        let mut i: usize = 0;
        while i < self.points.len()
            invariant
                i <= self.points@.len(),
                out@ == start + join_commas(self.points@.take(i as int).map_values(|p: ExcalidrawPoint| p.json())),
            decreases self.points@.len() - i,
        {
            let ghost prev = self.points@.take(i as int).map_values(|p: ExcalidrawPoint| p.json());
            let ghost item = self.points@[i as int].json();
            proof {
                reveal_strlit(",");
                assert(","@ =~= seq![',']);
                assert(self.points@.take(i + 1).map_values(|p: ExcalidrawPoint| p.json()) =~= prev.push(item));
                lemma_join_push(prev, item);
            }
            if i > 0 {
                out.append(",");
            }
            self.points[i].push_json(out);
            assert(out@ =~= start + join_commas(prev.push(item)));
            i = i + 1;
        }
        assert(self.points@.take(i as int) =~= self.points@);
    }

    fn push_head(&self, out: &mut String)
        ensures
            final(out)@ == old(out)@ + self.head_json(),
    {
        let ghost start = out@;
        out.append("{\n            \"id\": ");
        push_json_string(out, self.id.as_str());
        out.append(",\n            \"type\": ");
        push_json_string(out, self.kind.as_str());
        out.append(",\n            \"x\": ");
        push_tenths(out, self.x);
        out.append(",\n            \"y\": ");
        push_tenths(out, self.y);
        out.append(",\n            \"width\": ");
        push_tenths(out, self.width);
        out.append(",\n            \"height\": ");
        push_tenths(out, self.height);
        assert(out@ =~= start + self.head_json());
    }

    fn push_lists(&self, out: &mut String)
        ensures
            final(out)@ == old(out)@ + self.lists_json(),
    {
        let ghost start = out@;
        out.append(",\n            \"text\": ");
        push_json_string(out, self.text.as_str());
        out.append(",\n            \"strokeColor\": ");
        push_json_string(out, self.stroke_color.as_str());
        out.append(",\n            \"boundElements\": [");
        self.push_bound_elements(out);
        out.append("],\n            \"points\": [");
        self.push_points(out);
        assert(out@ =~= start + self.lists_json());
    }

    fn push_tail(&self, out: &mut String)
        ensures
            final(out)@ == old(out)@ + self.tail_json(),
    {
        let ghost start = out@;
        out.append("],\n            \"startBinding\": ");
        self.start_binding.push_json(out);
        out.append(",\n            \"endBinding\": ");
        self.end_binding.push_json(out);
        out.append(",\n            \"fontFamily\": 3,\n            \"fontSize\": 20\n        }");
        assert(out@ =~= start + self.tail_json());
    }

    pub fn push_json(&self, out: &mut String)
        ensures
            final(out)@ == old(out)@ + self.json(),
    {
        let ghost start = out@;
        self.push_head(out);
        self.push_lists(out);
        self.push_tail(out);
        assert(out@ =~= start + self.json());
    }

    pub fn to_json(&self) -> (r: String)
        ensures
            r@ == self.json(),
    {
        let mut out = String::new();
        self.push_json(&mut out);
        assert(out@ =~= self.json());
        out
    }
}

/// A whole drawing: a header, its elements in drawing order, and the
/// presentation defaults.
pub struct ExcalidrawDocument {
    pub doc_type: String,
    pub version: String,
    pub source: String,
    pub elements: Vec<ExcalidrawElement>,
    pub app_state: ExcalidrawAppState,
}

impl ExcalidrawDocument {
    /// An empty document with the standard header and a white background.
    pub fn new() -> (r: Self)
        ensures
            r.doc_type@ == "excalidraw"@,
            r.version@ == "2.0.0"@,
            r.source@ == "https://excalidraw.com"@,
            r.elements@.len() == 0,
            r.app_state.view_background_color@ == "#ffffff"@,
    {
        ExcalidrawDocument {
            doc_type: String::from_str("excalidraw"),
            version: String::from_str("2.0.0"),
            source: String::from_str("https://excalidraw.com"),
            elements: Vec::new(),
            app_state: ExcalidrawAppState::new(),
        }
    }

    /// Appends an element after the existing ones.
    pub fn add_element(&mut self, element: ExcalidrawElement)
        ensures
            final(self).elements@ == old(self).elements@.push(element),
            final(self).doc_type == old(self).doc_type,
            final(self).version == old(self).version,
            final(self).source == old(self).source,
            final(self).app_state == old(self).app_state,
    {
        self.elements.push(element);
    }

    /// The JSON object of the document.
    pub open spec fn json(self) -> Seq<char> {
        "{\n            \"type\": "@ + json_string(self.doc_type@) + ",\n            \"version\": "@ + json_string(self.version@)
            + ",\n            \"source\": "@ + json_string(self.source@) + ",\n            \"elements\": ["@ + join_commas(
            self.elements@.map_values(|e: ExcalidrawElement| e.json()),
        ) + "],\n            \"appState\": "@ + self.app_state.json() + "\n        }"@
    }

    fn push_elements(&self, out: &mut String)
        ensures
            final(out)@ == old(out)@ + join_commas(
                self.elements@.map_values(|e: ExcalidrawElement| e.json()),
            ),
    {
        let ghost start = out@;
        let mut i: usize = 0;
        while i < self.elements.len()
            invariant
                i <= self.elements@.len(),
                out@ == start + join_commas(self.elements@.take(i as int).map_values(|e: ExcalidrawElement| e.json())),
            decreases self.elements@.len() - i,
        {
            let ghost prev = self.elements@.take(i as int).map_values(|e: ExcalidrawElement| e.json());
            let ghost item = self.elements@[i as int].json();
            proof {
                reveal_strlit(",");
                assert(","@ =~= seq![',']);
                assert(self.elements@.take(i + 1).map_values(|e: ExcalidrawElement| e.json()) =~= prev.push(item));
                lemma_join_push(prev, item);
            }
            if i > 0 {
                out.append(",");
            }
            self.elements[i].push_json(out);
            assert(out@ =~= start + join_commas(prev.push(item)));
            i = i + 1;
        }
        assert(self.elements@.take(i as int) =~= self.elements@);
    }

    /// The document as JSON text.
    pub fn to_json(&self) -> (r: String)
        ensures
            r@ == self.json(),
    {
        let mut out = String::new();
        out.append("{\n            \"type\": ");
        push_json_string(&mut out, self.doc_type.as_str());
        out.append(",\n            \"version\": ");
        push_json_string(&mut out, self.version.as_str());
        out.append(",\n            \"source\": ");
        push_json_string(&mut out, self.source.as_str());
        out.append(",\n            \"elements\": [");
        self.push_elements(&mut out);
        out.append("],\n            \"appState\": ");
        self.app_state.push_json(&mut out);
        out.append("\n        }");
        assert(out@ =~= self.json());
        out
    }
}

/// A lowercase hexadecimal digit.
pub open spec fn is_hex_lower(c: char) -> bool {
    (48 <= (c as int) <= 57) || (97 <= (c as int) <= 102)
}

/// Relies on uuid's `Uuid::new_v4` and its `Display` (hyphenated) form: a
/// random identifier written as 36 characters, lowercase hexadecimal digits
/// with `-` at positions 8, 13, 18 and 23.
#[verifier::external_body]
pub(crate) fn fresh_id() -> (r: String)
    ensures
        r@.len() == 36,
        forall|i: int| 0 <= i < 36 ==> if i == 8 || i == 13 || i == 18 || i == 23 {
            #[trigger] r@[i] == '-'
        } else {
            is_hex_lower(r@[i])
        },
{
    uuid::Uuid::new_v4().to_string()
}

} // verus!
