use vstd::prelude::*;
use vstd::std_specs::iter::IteratorSpec;
use vstd::string::StringExecFns;

verus! {

/// Sort direction of a `sortby:` directive.
#[derive(Debug, Clone, Copy, PartialEq, Eq)]
pub enum Order {
    ASC,
    DESC,
    RANDOM,
}

/// A comparison value: a numeric literal, kept as written (its value is what
/// `f32::from_str` gives for that text), or a piece of text.
#[derive(Debug, Clone, PartialEq, Eq)]
pub enum Value {
    Number(String),
    String(String),
}

/// The mathematical content of a `Value`.
pub enum ValueModel {
    Number(Seq<char>),
    Text(Seq<char>),
}

/// Comparison operators of the query language.
#[derive(Debug, Clone, Copy, PartialEq, Eq)]
pub enum Operator {
    Eq,
    Neq,
    Gt,
    Gte,
    Lt,
    Lte,
    Contains,
    NotContains,
}

/// A value together with the half-open byte range `[start, end)` of the query
/// text it was read from.
#[derive(Debug, Clone, PartialEq, Eq)]
pub struct WithPos<T> {
    pub value: T,
    pub start: usize,
    pub end: usize,
}

/// The mathematical content of a `WithPos`.
pub struct Spanned<V> {
    pub value: V,
    pub start: int,
    pub end: int,
}

/// One unit of a parsed query.
#[derive(Debug, Clone, PartialEq, Eq)]
pub enum Term {
    Keyword { keyword: WithPos<String> },
    Operation { column: WithPos<String>, operator: WithPos<Operator>, value: WithPos<Value> },
    SortBy { column: WithPos<String>, order: Option<WithPos<Order>> },
}

/// The mathematical content of a `Term`.
pub enum TermModel {
    Keyword { keyword: Spanned<Seq<char>> },
    Operation {
        column: Spanned<Seq<char>>,
        operator: Spanned<Operator>,
        value: Spanned<ValueModel>,
    },
    SortBy { column: Spanned<Seq<char>>, order: Option<Spanned<Order>> },
}

impl View for Value {
    type V = ValueModel;

    open spec fn view(&self) -> ValueModel {
        match self {
            Value::Number(n) => ValueModel::Number(n@),
            Value::String(s) => ValueModel::Text(s@),
        }
    }
}

impl View for Operator {
    type V = Operator;

    open spec fn view(&self) -> Operator {
        *self
    }
}

impl View for Order {
    type V = Order;

    open spec fn view(&self) -> Order {
        *self
    }
}

impl<T: View> View for WithPos<T> {
    type V = Spanned<T::V>;

    open spec fn view(&self) -> Spanned<T::V> {
        Spanned { value: self.value@, start: self.start as int, end: self.end as int }
    }
}

impl View for Term {
    type V = TermModel;

    open spec fn view(&self) -> TermModel {
        match self {
            Term::Keyword { keyword } => TermModel::Keyword { keyword: keyword@ },
            Term::Operation { column, operator, value } => TermModel::Operation {
                column: column@,
                operator: operator@,
                value: value@,
            },
            Term::SortBy { column, order } => TermModel::SortBy {
                column: column@,
                order: match order {
                    Some(o) => Some(o@),
                    None => None,
                },
            },
        }
    }
}

/// The models of a sequence of terms.
pub open spec fn terms_view(ts: Seq<Term>) -> Seq<TermModel> {
    ts.map_values(|t: Term| t@)
}

impl Value {
    /// A copy of the value.
    pub fn duplicate(&self) -> (r: Value)
        ensures
            r@ == self@,
    {
        match self {
            Value::Number(n) => Value::Number(n.clone()),
            Value::String(s) => Value::String(s.clone()),
        }
    }
}

impl<T> WithPos<T> {
    /// The same span, carrying another value.
    pub fn transfer<P>(&self, p: P) -> (r: WithPos<P>)
        ensures
            r.value == p,
            r.start == self.start,
            r.end == self.end,
    {
        WithPos { value: p, start: self.start, end: self.end }
    }
}

/// `items` joined with `sep` between neighbours.
pub open spec fn join(items: Seq<Seq<char>>, sep: Seq<char>) -> Seq<char>
    decreases items.len(),
{
    if items.len() == 0 {
        Seq::empty()
    } else if items.len() == 1 {
        items[0]
    } else {
        join(items.drop_last(), sep) + sep + items.last()
    }
}

/// How one character is written inside a double-quoted string.
pub open spec fn escape_char(c: char) -> Seq<char> {
    if c == '"' {
        seq!['\\', '"']
    } else if c == '\\' {
        seq!['\\', '\\']
    } else if c == '\n' {
        seq!['\\', 'n']
    } else if c == '\r' {
        seq!['\\', 'r']
    } else if c == '\t' {
        seq!['\\', 't']
    } else {
        seq![c]
    }
}

/// The characters of `s`, each escaped.
pub open spec fn escape(s: Seq<char>) -> Seq<char>
    decreases s.len(),
{
    if s.len() == 0 {
        Seq::empty()
    } else {
        escape(s.drop_last()) + escape_char(s.last())
    }
}

/// `s` in double quotes, escaped.
pub open spec fn quoted(s: Seq<char>) -> Seq<char> {
    seq!['"'] + escape(s) + seq!['"']
}

/// The canonical symbol of an operator.
pub open spec fn operator_text(op: Operator) -> Seq<char> {
    match op {
        Operator::Eq => "="@,
        Operator::Neq => "!="@,
        Operator::Gt => ">"@,
        Operator::Gte => ">="@,
        Operator::Lt => "<"@,
        Operator::Lte => "<="@,
        Operator::Contains => "~"@,
        Operator::NotContains => "!~"@,
    }
}

/// The canonical word of a sort order.
pub open spec fn order_text(o: Order) -> Seq<char> {
    match o {
        Order::ASC => "asc"@,
        Order::DESC => "desc"@,
        Order::RANDOM => "rand"@,
    }
}

/// A number is written as its literal, text in quotes.
pub open spec fn value_text(v: ValueModel) -> Seq<char> {
    match v {
        ValueModel::Number(n) => n,
        ValueModel::Text(s) => quoted(s),
    }
}

/// The canonical serialization of a term.
pub open spec fn term_text(t: TermModel) -> Seq<char> {
    match t {
        TermModel::Keyword { keyword } => keyword.value,
        TermModel::Operation { column, operator, value } => column.value + " "@
            + operator_text(operator.value) + " "@ + value_text(value.value),
        TermModel::SortBy { column, order } => "sortby:"@ + column.value + match order {
            Some(o) => ","@ + order_text(o.value),
            None => Seq::empty(),
        },
    }
}

/// The canonical serialization of a sequence of terms: the terms, space-separated.
pub open spec fn terms_text(ts: Seq<TermModel>) -> Seq<char> {
    join(ts.map_values(|t: TermModel| term_text(t)), " "@)
}

/// Appends `s`, escaped, to `out`.
pub fn push_escaped(out: &mut String, s: &str)
    ensures
        final(out)@ == old(out)@ + escape(s@),
{
    let cs = chars_of(s);
    let mut i: usize = 0;
    while i < cs.len()
        invariant
            cs@ == s@,
            i <= cs@.len(),
            out@ == old(out)@ + escape(s@.take(i as int)),
        decreases cs.len() - i,
    {
        let c = cs[i];
        if c == '"' {
            out.append("\\\"");
        } else if c == '\\' {
            out.append("\\\\");
        } else if c == '\n' {
            out.append("\\n");
        } else if c == '\r' {
            out.append("\\r");
        } else if c == '\t' {
            out.append("\\t");
        } else {
            let one = [c];
            out.append(string_of(&one).as_str());
        }
        proof {
            reveal_strlit("\\\"");
            reveal_strlit("\\\\");
            reveal_strlit("\\n");
            reveal_strlit("\\r");
            reveal_strlit("\\t");
            assert(s@.take(i + 1).drop_last() =~= s@.take(i as int));
        }
        i = i + 1;
    }
    assert(s@.take(cs@.len() as int) =~= s@);
}

/// `s` in double quotes, escaped.
pub fn quote(s: &str) -> (r: String)
    ensures
        r@ == quoted(s@),
{
    let mut out = String::from_str("\"");
    push_escaped(&mut out, s);
    out.append("\"");
    proof {
        reveal_strlit("\"");
    }
    assert(out@ =~= quoted(s@));
    out
}

/// The characters of `s`, in order.
pub(crate) fn chars_of(s: &str) -> (r: Vec<char>)
    ensures
        r@ == s@,
{
    broadcast use vstd::string::group_string_axioms;

    let mut it = s.chars();
    let mut out: Vec<char> = Vec::new();
    assert(out@ + it.remaining() =~= s@);
    loop
        invariant
            out@ + it.remaining() == s@,
            it.decrease() is Some,
        decreases it.decrease()->0,
    {
        match it.next() {
            Some(c) => {
                out.push(c);
                assert(out@ + it.remaining() =~= s@);
            },
            None => {
                assert(out@ =~= s@);
                return out;
            },
        }
    }
}

/// Relies on `String: FromIterator<&char>`: the string of the given characters.
#[verifier::external_body]
pub(crate) fn string_of(cs: &[char]) -> (r: String)
    ensures
        r@ == cs@,
{
    cs.iter().collect()
}


/// Canonical re-serialization of query syntax.
pub trait SaveRepr {
    /// The text that `save_repr` returns.
    spec fn repr(&self) -> Seq<char>;

    fn save_repr(&self) -> (r: String)
        ensures
            r@ == self.repr(),
    ;
}

impl Operator {
    /// The canonical symbol.
    pub fn text(&self) -> (r: &'static str)
        ensures
            r@ == operator_text(*self),
    {
        match self {
            Operator::Eq => "=",
            Operator::Neq => "!=",
            Operator::Gt => ">",
            Operator::Gte => ">=",
            Operator::Lt => "<",
            Operator::Lte => "<=",
            Operator::Contains => "~",
            Operator::NotContains => "!~",
        }
    }
}

impl SaveRepr for Operator {
    open spec fn repr(&self) -> Seq<char> {
        operator_text(*self)
    }

    fn save_repr(&self) -> (r: String) {
        self.text().to_owned()
    }
}

impl SaveRepr for Order {
    open spec fn repr(&self) -> Seq<char> {
        order_text(*self)
    }

    fn save_repr(&self) -> (r: String) {
        let t = match self {
            Order::ASC => "asc",
            Order::DESC => "desc",
            Order::RANDOM => "rand",
        };
        t.to_owned()
    }
}

impl SaveRepr for Value {
    open spec fn repr(&self) -> Seq<char> {
        value_text(self@)
    }

    fn save_repr(&self) -> (r: String) {
        match self {
            Value::Number(n) => n.clone(),
            Value::String(s) => quote(s.as_str()),
        }
    }
}

impl<T: SaveRepr> SaveRepr for WithPos<T> {
    open spec fn repr(&self) -> Seq<char> {
        self.value.repr()
    }

    fn save_repr(&self) -> (r: String) {
        self.value.save_repr()
    }
}

impl SaveRepr for Term {
    open spec fn repr(&self) -> Seq<char> {
        term_text(self@)
    }

    fn save_repr(&self) -> (r: String) {
        match self {
            Term::Keyword { keyword } => keyword.value.clone(),
            Term::Operation { column, operator, value } => {
                let mut out = column.value.clone();
                out.append(" ");
                out.append(operator.value.save_repr().as_str());
                out.append(" ");
                out.append(value.value.save_repr().as_str());
                out
            },
            Term::SortBy { column, order } => {
                let mut out = String::from_str("sortby:");
                out.append(column.value.as_str());
                match order {
                    Some(o) => {
                        out.append(",");
                        out.append(o.value.save_repr().as_str());
                    },
                    None => {},
                }
                assert(out@ =~= self.repr());
                out
            },
        }
    }
}

impl SaveRepr for Vec<Term> {
    open spec fn repr(&self) -> Seq<char> {
        terms_text(terms_view(self@))
    }

    fn save_repr(&self) -> (r: String) {
        let mut out = String::new();
        let mut i: usize = 0;
        while i < self.len()
            invariant
                i <= self@.len(),
                out@ == terms_text(terms_view(self@.take(i as int))),
            decreases self.len() - i,
        {
            if i > 0 {
                out.append(" ");
            }
            out.append(self[i].save_repr().as_str());
            proof {
                let pre = terms_view(self@.take(i as int)).map_values(|t: TermModel| term_text(t));
                let now = terms_view(self@.take(i + 1)).map_values(|t: TermModel| term_text(t));
                assert(now.drop_last() =~= pre);
                assert(now.last() == self@[i as int].repr());
            }
            i = i + 1;
        }
        assert(self@.take(self@.len() as int) =~= self@);
        out
    }
}

} // verus!
