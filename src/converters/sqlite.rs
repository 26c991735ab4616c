use vstd::prelude::*;
use vstd::string::StringExecFns;

use super::{closest, propose_closest, strings_view, ConvertError, ErrorModel};
use crate::ast::{join, quote, quoted, terms_view, Operator, Order, Spanned, Term, TermModel, Value, ValueModel, WithPos};
use crate::parser::{parse_query, parse_query_spec};

verus! {

/// Converts parsed queries into parts of an SQLite statement: a WHERE
/// fragment, an ORDER BY fragment and the values bound to its placeholders.
#[derive(Clone)]
pub struct SQLiteWhere {
    columns: Vec<String>,
    keyword_columns: Vec<String>,
    ignore_case: bool,
}

/// The configuration of a `SQLiteWhere`.
pub struct ColumnConfig {
    pub columns: Seq<Seq<char>>,
    pub keyword_columns: Seq<Seq<char>>,
    pub ignore_case: bool,
}

/// The result of a conversion.
#[derive(Debug, Clone, PartialEq, Eq)]
pub struct WhereClause {
    pub where_clause: String,
    pub order_by: String,
    pub bindings: Vec<(String, Value)>,
}

/// The mathematical content of a `WhereClause`.
pub struct ClauseModel {
    pub where_clause: Seq<char>,
    pub order_by: Seq<char>,
    pub bindings: Seq<(Seq<char>, ValueModel)>,
}

/// The models of a sequence of bindings.
pub open spec fn bindings_view(b: Seq<(String, Value)>) -> Seq<(Seq<char>, ValueModel)> {
    b.map_values(|p: (String, Value)| (p.0@, p.1@))
}

impl View for WhereClause {
    type V = ClauseModel;

    open spec fn view(&self) -> ClauseModel {
        ClauseModel {
            where_clause: self.where_clause@,
            order_by: self.order_by@,
            bindings: bindings_view(self.bindings@),
        }
    }
}

/// The model of the outcome of a conversion.
pub open spec fn outcome_view(r: Result<WhereClause, ConvertError<String>>) -> Result<ClauseModel, ErrorModel> {
    match r {
        Ok(w) => Ok(w@),
        Err(e) => Err(e@),
    }
}

/// The text that stands for `@null` as a comparison value.
pub open spec fn null_marker() -> Seq<char> {
    "@null"@
}

/// The column name that stands for a random order.
pub open spec fn rand_marker() -> Seq<char> {
    "@rand"@
}

/// Relies on `str::to_lowercase`: the result depends on the characters alone.
pub uninterp spec fn lower_of(s: Seq<char>) -> Seq<char>;

/// Relies on `str::to_lowercase`, which maps each character to its lowercase form.
#[verifier::external_body]
fn lowercase(s: &str) -> (r: String)
    ensures
        r@ == lower_of(s@),
{
    s.to_lowercase()
}

/// The message of a configuration that names an unknown keyword column.
pub open spec fn invalid_column_text(c: Seq<char>) -> Seq<char> {
    "Invalid column "@ + quoted(c)
}

/// The message for an unknown column, with the suggestion if there is one.
pub open spec fn column_error_text(columns: Seq<Seq<char>>, c: Seq<char>) -> Seq<char> {
    invalid_column_text(c) + match closest(columns, c, 3) {
        Some(s) => ": did you mean "@ + quoted(s) + "?"@,
        None => Seq::empty(),
    }
}

/// The message for `@null` compared with an operator other than `=` and `!=`.
pub open spec fn null_error_text(op: Operator) -> Seq<char> {
    "null comparison expects = or !=, got "@ + quoted(crate::ast::operator_text(op)) + " instead"@
}

/// The SQL form of an operator outside a null comparison.
pub open spec fn sql_operator(op: Operator) -> Seq<char> {
    match op {
        Operator::Contains => "LIKE"@,
        Operator::NotContains => "NOT LIKE"@,
        _ => crate::ast::operator_text(op),
    }
}

impl super::Convert<WhereClause, String> for SQLiteWhere {
    fn convert_terms(&self, terms: &[Term]) -> (r: Result<WhereClause, ConvertError<String>>) {
        SQLiteWhere::convert_terms(self, terms)
    }

    fn convert(&self, query: &str) -> (r: Result<WhereClause, ConvertError<String>>) {
        SQLiteWhere::convert(self, query)
    }
}

/// The SQL form of an operator outside a null comparison.
fn sql_operator_text(op: Operator) -> (r: &'static str)
    ensures
        r@ == sql_operator(op),
{
    match op {
        Operator::Contains => "LIKE",
        Operator::NotContains => "NOT LIKE",
        _ => op.text(),
    }
}

/// What the accumulated terms have produced so far.
pub struct Parts {
    pub keywords: Seq<Seq<char>>,
    pub normal: Seq<Seq<char>>,
    pub bindings: Seq<(Seq<char>, ValueModel)>,
    pub orders: Seq<Seq<char>>,
}

impl ColumnConfig {
    /// `c` names a configured column, up to case when case is ignored.
    pub open spec fn column_ok(self, c: Seq<char>) -> bool {
        if self.ignore_case {
            exists|i: int| 0 <= i < self.columns.len() && lower_of(#[trigger] self.columns[i]) == lower_of(c)
        } else {
            self.columns.contains(c)
        }
    }

    /// How a column is written in the output.
    pub open spec fn column_repr(self, c: Seq<char>) -> Seq<char> {
        if self.ignore_case {
            c
        } else {
            quoted(c)
        }
    }

    /// The error for an unknown column.
    pub open spec fn column_error(self, c: Spanned<Seq<char>>) -> ErrorModel {
        ErrorModel { error: column_error_text(self.columns, c.value), start: c.start, end: c.end }
    }

    /// The effect of one term on the accumulated parts.
    pub open spec fn step(self, acc: Parts, t: TermModel) -> Result<Parts, ErrorModel> {
        match t {
            TermModel::Keyword { keyword } => Ok(Parts { keywords: acc.keywords.push(keyword.value), ..acc }),
            TermModel::Operation { column, operator, value } => {
                if !self.column_ok(column.value) {
                    Err(self.column_error(column))
                } else if value.value == ValueModel::Text(null_marker()) {
                    if operator.value == Operator::Eq {
                        Ok(Parts { normal: acc.normal.push(self.column_repr(column.value) + " IS NULL"@), ..acc })
                    } else if operator.value == Operator::Neq {
                        Ok(Parts { normal: acc.normal.push(self.column_repr(column.value) + " IS NOT NULL"@), ..acc })
                    } else {
                        Err(ErrorModel { error: null_error_text(operator.value), start: operator.start, end: operator.end })
                    }
                } else {
                    Ok(Parts {
                        normal: acc.normal.push(
                            self.column_repr(column.value) + " "@ + sql_operator(operator.value) + " ?"@,
                        ),
                        bindings: acc.bindings.push((column.value, value.value)),
                        ..acc
                    })
                }
            },
            TermModel::SortBy { column, order } => {
                if column.value == rand_marker() {
                    Ok(Parts { orders: acc.orders.push("RANDOM()"@), ..acc })
                } else if !self.column_ok(column.value) {
                    Err(self.column_error(column))
                } else {
                    let r = self.column_repr(column.value);
                    Ok(Parts {
                        orders: acc.orders.push(match order {
                            None => r,
                            Some(o) => match o.value {
                                Order::ASC => r + " ASC"@,
                                Order::DESC => r + " DESC"@,
                                Order::RANDOM => r + ", RANDOM()"@,
                            },
                        }),
                        ..acc
                    })
                }
            },
        }
    }

    /// The parts of a term sequence, or the error of its first faulty term.
    pub open spec fn scan(self, ts: Seq<TermModel>) -> Result<Parts, ErrorModel>
        decreases ts.len(),
    {
        if ts.len() == 0 {
            Ok(Parts { keywords: Seq::empty(), normal: Seq::empty(), bindings: Seq::empty(), orders: Seq::empty() })
        } else {
            match self.scan(ts.drop_last()) {
                Ok(acc) => self.step(acc, ts.last()),
                Err(e) => Err(e),
            }
        }
    }

    /// Once a prefix of the terms fails, the whole sequence fails the same way.
    pub proof fn lemma_scan_error_persists(self, ts: Seq<TermModel>, k: int)
        requires
            0 <= k <= ts.len(),
            self.scan(ts.take(k)) is Err,
        ensures
            self.scan(ts) == self.scan(ts.take(k)),
        decreases ts.len() - k,
    {
        if k < ts.len() {
            assert(ts.take(k + 1).drop_last() =~= ts.take(k));
            self.lemma_scan_error_persists(ts, k + 1);
        } else {
            assert(ts.take(k) =~= ts);
        }
    }

    /// The pattern that the keywords are matched with.
    pub open spec fn keyword_pattern(keywords: Seq<Seq<char>>) -> Seq<char> {
        "%"@ + join(keywords, "%"@) + "%"@
    }

    /// One `LIKE` predicate per keyword column, when there are keywords.
    pub open spec fn keyword_predicates(self, keywords: Seq<Seq<char>>) -> Seq<Seq<char>> {
        if keywords.len() > 0 {
            self.keyword_columns.map_values(|c: Seq<char>| self.column_repr(c) + " LIKE ?"@)
        } else {
            Seq::empty()
        }
    }

    /// The values bound to the keyword predicates.
    pub open spec fn keyword_bindings(self, keywords: Seq<Seq<char>>) -> Seq<(Seq<char>, ValueModel)> {
        if keywords.len() > 0 {
            self.keyword_columns.map_values(
                |c: Seq<char>| (c, ValueModel::Text(Self::keyword_pattern(keywords))),
            )
        } else {
            Seq::empty()
        }
    }

    /// The parenthesized groups of the WHERE fragment.
    pub open spec fn groups(self, acc: Parts) -> Seq<Seq<char>> {
        let kw = self.keyword_predicates(acc.keywords);
        (if kw.len() > 0 {
            seq!["("@ + join(kw, " OR "@) + ")"@]
        } else {
            Seq::empty()
        }) + (if acc.normal.len() > 0 {
            seq!["("@ + join(acc.normal, " AND "@) + ")"@]
        } else {
            Seq::empty()
        })
    }

    /// The final result built from the accumulated parts.
    pub open spec fn assemble(self, acc: Parts) -> ClauseModel {
        let kw = self.keyword_predicates(acc.keywords);
        ClauseModel {
            where_clause: join(self.groups(acc), " AND "@),
            order_by: join(acc.orders, ", "@),
            bindings: (if kw.len() > 0 {
                self.keyword_bindings(acc.keywords)
            } else {
                Seq::empty()
            }) + (if acc.normal.len() > 0 {
                acc.bindings
            } else {
                Seq::empty()
            }),
        }
    }

    /// The outcome of converting a term sequence.
    pub open spec fn convert(self, ts: Seq<TermModel>) -> Result<ClauseModel, ErrorModel> {
        match self.scan(ts) {
            Ok(acc) => Ok(self.assemble(acc)),
            Err(e) => Err(e),
        }
    }
}

/// The strings joined with `sep`.
pub fn join_strings(parts: &Vec<String>, sep: &str) -> (r: String)
    ensures
        r@ == join(strings_view(parts@), sep@),
{
    let mut out = String::new();
    let mut i: usize = 0;
    while i < parts.len()
        invariant
            i <= parts@.len(),
            out@ == join(strings_view(parts@.take(i as int)), sep@),
        decreases parts.len() - i,
    {
        if i > 0 {
            out.append(sep);
        }
        out.append(parts[i].as_str());
        proof {
            assert(strings_view(parts@.take(i + 1)).drop_last() =~= strings_view(parts@.take(i as int)));
        }
        i = i + 1;
    }
    assert(parts@.take(parts@.len() as int) =~= parts@);
    out
}

impl SQLiteWhere {
    /// The configuration.
    pub closed spec fn config(&self) -> ColumnConfig {
        ColumnConfig {
            columns: strings_view(self.columns@),
            keyword_columns: strings_view(self.keyword_columns@),
            ignore_case: self.ignore_case,
        }
    }

    /// Every keyword column is a configured column.
    pub open spec fn wf(&self) -> bool {
        forall|i: int|
            0 <= i < self.config().keyword_columns.len() ==> self.config().columns.contains(
                #[trigger] self.config().keyword_columns[i],
            )
    }

    /// A converter for the given columns, with no keyword columns.
    pub fn new(columns: Vec<String>, ignore_case: bool) -> (r: Self)
        ensures
            r.wf(),
            r.config().columns == strings_view(columns@),
            r.config().keyword_columns.len() == 0,
            r.config().ignore_case == ignore_case,
    {
        SQLiteWhere { columns, keyword_columns: Vec::new(), ignore_case }
    }

    /// Whether `c` is exactly one of the configured columns.
    fn has_column(&self, c: &String) -> (r: bool)
        ensures
            r == self.config().columns.contains(c@),
    {
        let mut i: usize = 0;
        while i < self.columns.len()
            invariant
                i <= self.columns@.len(),
                forall|j: int| 0 <= j < i ==> self.columns@[j]@ != c@,
            decreases self.columns.len() - i,
        {
            if self.columns[i] == *c {
                assert(self.config().columns[i as int] == c@);
                return true;
            }
            i = i + 1;
        }
        proof {
            if self.config().columns.contains(c@) {
                let j = choose|j: int| 0 <= j < self.config().columns.len() && self.config().columns[j] == c@;
                assert(self.columns@[j]@ == c@);
            }
        }
        false
    }

    /// Sets the columns that keywords are matched against; fails, leaving the
    /// converter as it was, when one of them is not a configured column.
    pub fn match_keywords_with(&mut self, columns: Vec<String>) -> (r: Result<(), String>)
        requires
            old(self).wf(),
        ensures
            final(self).wf(),
            final(self).config().columns == old(self).config().columns,
            final(self).config().ignore_case == old(self).config().ignore_case,
            (forall|i: int| 0 <= i < columns@.len() ==> old(self).config().columns.contains(#[trigger] columns@[i]@))
                <==> r is Ok,
            r is Ok ==> final(self).config().keyword_columns == strings_view(columns@),
            r matches Err(m) ==> {
                &&& *final(self) == *old(self)
                &&& exists|i: int|
                    0 <= i < columns@.len() && !old(self).config().columns.contains(#[trigger] columns@[i]@)
                        && (forall|j: int| 0 <= j < i ==> old(self).config().columns.contains(#[trigger] columns@[j]@))
                        && m@ == invalid_column_text(columns@[i]@)
            },
    {
        let mut i: usize = 0;
        while i < columns.len()
            invariant
                i <= columns@.len(),
                *self == *old(self),
                self.wf(),
                forall|j: int| 0 <= j < i ==> self.config().columns.contains(#[trigger] columns@[j]@),
            decreases columns.len() - i,
        {
            if !self.has_column(&columns[i]) {
                let mut m = String::from_str("Invalid column ");
                m.append(quote(columns[i].as_str()).as_str());
                return Err(m);
            }
            i = i + 1;
        }
        self.keyword_columns = columns;
        proof {
            assert forall|k: int| 0 <= k < self.config().keyword_columns.len() implies self.config().columns.contains(
                #[trigger] self.config().keyword_columns[k],
            ) by {
                assert(self.config().keyword_columns[k] == columns@[k]@);
            }
        }
        Ok(())
    }

    /// Accepts a configured column, up to case when case is ignored; else the
    /// error names it, with the closest configured column as a suggestion.
    pub fn check_column(&self, column: &WithPos<String>) -> (r: Result<(), ConvertError<String>>)
        ensures
            r is Ok <==> self.config().column_ok(column.value@),
            r matches Err(e) ==> e@ == self.config().column_error(column@),
    {
        if !self.ignore_case {
            if self.has_column(&column.value) {
                return Ok(());
            }
        } else {
            let wanted = lowercase(column.value.as_str());
            let mut i: usize = 0;
            while i < self.columns.len()
                invariant
                    i <= self.columns@.len(),
                    self.ignore_case,
                    wanted@ == lower_of(column.value@),
                    forall|j: int| 0 <= j < i ==> lower_of(#[trigger] self.config().columns[j]) != lower_of(column.value@),
                decreases self.columns.len() - i,
            {
                let low = lowercase(self.columns[i].as_str());
                assert(self.config().columns[i as int] == self.columns@[i as int]@);
                if low == wanted {
                    return Ok(());
                }
                i = i + 1;
            }
        }
        let mut m = String::from_str("Invalid column ");
        m.append(quote(column.value.as_str()).as_str());
        let suggestion = propose_closest(self.columns.as_slice(), column.value.as_str(), Some(3));
        match suggestion {
            Some(s) => {
                m.append(": did you mean ");
                m.append(quote(s.as_str()).as_str());
                m.append("?");
            },
            None => {},
        }
        assert(m@ =~= column_error_text(self.config().columns, column.value@));
        Err(ConvertError { error: m, start: column.start, end: column.end })
    }

    /// How a column is written in the output.
    fn column_repr(&self, c: &str) -> (r: String)
        ensures
            r@ == self.config().column_repr(c@),
    {
        if self.ignore_case {
            c.to_owned()
        } else {
            quote(c)
        }
    }

    /// Parses and converts a query. Parsing never fails; its error, were there
    /// one, would span the whole text.
    pub fn convert(&self, query: &str) -> (r: Result<WhereClause, ConvertError<String>>)
        ensures
            outcome_view(r) == self.config().convert(parse_query_spec(query@)),
    {
        match parse_query(query) {
            Ok(terms) => self.convert_terms(terms.as_slice()),
            Err(e) => {
                let end = query.as_bytes().len();
                Err(ConvertError { error: e, start: 0, end })
            },
        }
    }

    /// Converts a term sequence: the WHERE fragment holds the keyword
    /// predicates and the comparisons, the ORDER BY fragment the sort terms,
    /// and the bindings one value per placeholder; the first unknown column
    /// or misused `@null`, in term order, is the error.
    pub fn convert_terms(&self, terms: &[Term]) -> (r: Result<WhereClause, ConvertError<String>>)
        ensures
            outcome_view(r) == self.config().convert(terms_view(terms@)),
    {
        let ghost cfg = self.config();
        let mut keywords: Vec<String> = Vec::new();
        let mut normal_terms: Vec<String> = Vec::new();
        let mut ord_terms: Vec<String> = Vec::new();
        let mut normal_bindings: Vec<(String, Value)> = Vec::new();
        assert(terms_view(terms@.take(0)) =~= Seq::<TermModel>::empty());
        assert(strings_view(keywords@) =~= Seq::<Seq<char>>::empty());
        assert(bindings_view(normal_bindings@) =~= Seq::<(Seq<char>, ValueModel)>::empty());
        let mut i: usize = 0;
        while i < terms.len()
            invariant
                i <= terms@.len(),
                cfg == self.config(),
                cfg.scan(terms_view(terms@.take(i as int))) == Ok::<Parts, ErrorModel>(Parts {
                    keywords: strings_view(keywords@),
                    normal: strings_view(normal_terms@),
                    bindings: bindings_view(normal_bindings@),
                    orders: strings_view(ord_terms@),
                }),
            decreases terms.len() - i,
        {
            let ghost acc = Parts {
                keywords: strings_view(keywords@),
                normal: strings_view(normal_terms@),
                bindings: bindings_view(normal_bindings@),
                orders: strings_view(ord_terms@),
            };
            let ghost tv = terms_view(terms@.take(i + 1));
            assert(tv.drop_last() =~= terms_view(terms@.take(i as int)));
            assert(tv.last() == terms@[i as int]@);
            let ghost next = cfg.step(acc, terms@[i as int]@);
            assert(cfg.scan(tv) == next);
            match &terms[i] {
                Term::Keyword { keyword } => {
                    keywords.push(keyword.value.clone());
                    assert(strings_view(keywords@) =~= acc.keywords.push(keyword.value@));
                },
                Term::Operation { column, operator, value } => {
                    match self.check_column(column) {
                        Ok(()) => {},
                        Err(e) => {
                            proof {
                                cfg.lemma_scan_error_persists(terms_view(terms@), i + 1);
                                assert(terms_view(terms@).take(i + 1) =~= tv);
                            }
                            return Err(e);
                        },
                    }
                    let col_repr = self.column_repr(column.value.as_str());
                    let is_null_cp = match &value.value {
                        Value::String(v) => *v == String::from_str("@null"),
                        Value::Number(_) => false,
                    };
                    if is_null_cp {
                        let mut clause = col_repr;
                        match operator.value {
                            Operator::Eq => {
                                clause.append(" IS NULL");
                            },
                            Operator::Neq => {
                                clause.append(" IS NOT NULL");
                            },
                            _ => {
                                let mut m = String::from_str("null comparison expects = or !=, got ");
                                m.append(quote(operator.value.text()).as_str());
                                m.append(" instead");
                                assert(m@ =~= null_error_text(operator.value));
                                proof {
                                    cfg.lemma_scan_error_persists(terms_view(terms@), i + 1);
                                    assert(terms_view(terms@).take(i + 1) =~= tv);
                                }
                                return Err(ConvertError { error: m, start: operator.start, end: operator.end });
                            },
                        }
                        normal_terms.push(clause);
                        assert(strings_view(normal_terms@) =~= next->Ok_0.normal);
                    } else {
                        let mut clause = col_repr;
                        clause.append(" ");
                        clause.append(sql_operator_text(operator.value));
                        clause.append(" ?");
                        normal_terms.push(clause);
                        normal_bindings.push((column.value.clone(), value.value.duplicate()));
                        assert(strings_view(normal_terms@) =~= next->Ok_0.normal);
                        assert(bindings_view(normal_bindings@) =~= next->Ok_0.bindings);
                    }
                },
                Term::SortBy { column, order } => {
                    if column.value == String::from_str("@rand") {
                        ord_terms.push(String::from_str("RANDOM()"));
                    } else {
                        match self.check_column(column) {
                            Ok(()) => {},
                            Err(e) => {
                                proof {
                                    cfg.lemma_scan_error_persists(terms_view(terms@), i + 1);
                                    assert(terms_view(terms@).take(i + 1) =~= tv);
                                }
                                return Err(e);
                            },
                        }
                        let mut clause = self.column_repr(column.value.as_str());
                        match order {
                            Some(o) => match o.value {
                                Order::ASC => {
                                    clause.append(" ASC");
                                },
                                Order::DESC => {
                                    clause.append(" DESC");
                                },
                                Order::RANDOM => {
                                    clause.append(", RANDOM()");
                                },
                            },
                            None => {},
                        }
                        ord_terms.push(clause);
                    }
                    assert(strings_view(ord_terms@) =~= next->Ok_0.orders);
                },
            }
            i = i + 1;
        }
        assert(terms@.take(terms@.len() as int) =~= terms@);
        let ghost acc = Parts {
            keywords: strings_view(keywords@),
            normal: strings_view(normal_terms@),
            bindings: bindings_view(normal_bindings@),
            orders: strings_view(ord_terms@),
        };

        let mut keyword_terms: Vec<String> = Vec::new();
        let mut keyword_bindings: Vec<(String, Value)> = Vec::new();
        if keywords.len() > 0 {
            let mut pattern = String::from_str("%");
            pattern.append(join_strings(&keywords, "%").as_str());
            pattern.append("%");
            assert(pattern@ =~= ColumnConfig::keyword_pattern(acc.keywords));
            let mut j: usize = 0;
            while j < self.keyword_columns.len()
                invariant
                    j <= self.keyword_columns@.len(),
                    cfg == self.config(),
                    acc.keywords.len() > 0,
                    pattern@ == ColumnConfig::keyword_pattern(acc.keywords),
                    strings_view(keyword_terms@) == cfg.keyword_predicates(acc.keywords).take(j as int),
                    bindings_view(keyword_bindings@) == cfg.keyword_bindings(acc.keywords).take(j as int),
                decreases self.keyword_columns.len() - j,
            {
                let kcol = &self.keyword_columns[j];
                let mut clause = self.column_repr(kcol.as_str());
                clause.append(" LIKE ?");
                let ghost terms_before = keyword_terms@;
                let ghost bindings_before = keyword_bindings@;
                let ghost clause_view = clause@;
                keyword_terms.push(clause);
                let entry = (kcol.clone(), Value::String(pattern.clone()));
                assert(entry.0@ == kcol@ && entry.1@ == ValueModel::Text(pattern@));
                keyword_bindings.push(entry);
                assert(strings_view(keyword_terms@) =~= strings_view(terms_before).push(clause_view));
                assert(bindings_view(keyword_bindings@) =~= bindings_view(bindings_before).push((entry.0@, entry.1@)));
                assert(cfg.keyword_columns[j as int] == kcol@);
                assert(cfg.keyword_predicates(acc.keywords)[j as int] == cfg.column_repr(kcol@) + " LIKE ?"@);
                assert(cfg.keyword_bindings(acc.keywords)[j as int] == (
                    kcol@,
                    ValueModel::Text(ColumnConfig::keyword_pattern(acc.keywords)),
                ));
                assert(strings_view(keyword_terms@) =~= cfg.keyword_predicates(acc.keywords).take(j + 1));
                assert(bindings_view(keyword_bindings@) =~= cfg.keyword_bindings(acc.keywords).take(j + 1));
                j = j + 1;
            }
            assert(cfg.keyword_predicates(acc.keywords).take(j as int) =~= cfg.keyword_predicates(acc.keywords));
            assert(cfg.keyword_bindings(acc.keywords).take(j as int) =~= cfg.keyword_bindings(acc.keywords));
        } else {
            assert(strings_view(keyword_terms@) =~= cfg.keyword_predicates(acc.keywords));
            assert(bindings_view(keyword_bindings@) =~= cfg.keyword_bindings(acc.keywords));
        }

        let mut bindings: Vec<(String, Value)> = Vec::new();
        let mut groups: Vec<String> = Vec::new();
        if keyword_terms.len() > 0 {
            let mut g = String::from_str("(");
            g.append(join_strings(&keyword_terms, " OR ").as_str());
            g.append(")");
            groups.push(g);
            bindings.append(&mut keyword_bindings);
        }
        if normal_terms.len() > 0 {
            let mut g = String::from_str("(");
            g.append(join_strings(&normal_terms, " AND ").as_str());
            g.append(")");
            groups.push(g);
            bindings.append(&mut normal_bindings);
        }
        assert(strings_view(groups@) =~= cfg.groups(acc));
        assert(bindings_view(bindings@) =~= cfg.assemble(acc).bindings);
        Ok(WhereClause {
            where_clause: join_strings(&groups, " AND "),
            order_by: join_strings(&ord_terms, ", "),
            bindings,
        })
    }
}

/// `@null` compared with `=` becomes an `IS NULL` predicate, with `!=` an
/// `IS NOT NULL` predicate, neither with a binding; with any other operator
/// the conversion fails with the null-comparison error over the operator.
pub proof fn law_null_comparison(
    cfg: ColumnConfig,
    acc: Parts,
    column: Spanned<Seq<char>>,
    operator: Spanned<Operator>,
    value: Spanned<ValueModel>,
)
    requires
        cfg.column_ok(column.value),
        value.value == ValueModel::Text(null_marker()),
    ensures
        ({
            let r = cfg.step(acc, TermModel::Operation { column, operator, value });
            &&& operator.value == Operator::Eq ==> r == Ok::<Parts, ErrorModel>(
                Parts { normal: acc.normal.push(cfg.column_repr(column.value) + " IS NULL"@), ..acc },
            )
            &&& operator.value == Operator::Neq ==> r == Ok::<Parts, ErrorModel>(
                Parts { normal: acc.normal.push(cfg.column_repr(column.value) + " IS NOT NULL"@), ..acc },
            )
            &&& operator.value != Operator::Eq && operator.value != Operator::Neq ==> r == Err::<Parts, ErrorModel>(
                ErrorModel { error: null_error_text(operator.value), start: operator.start, end: operator.end },
            )
        }),
{
}

/// A sort on `@rand` is accepted whatever the configured columns, and adds
/// the random order marker.
pub proof fn law_random_sort(cfg: ColumnConfig, acc: Parts, column: Spanned<Seq<char>>, order: Option<Spanned<Order>>)
    requires
        column.value == rand_marker(),
    ensures
        cfg.step(acc, TermModel::SortBy { column, order }) == Ok::<Parts, ErrorModel>(
            Parts { orders: acc.orders.push("RANDOM()"@), ..acc },
        ),
{
}

/// The number of `?` placeholders in `s`.
pub open spec fn placeholders(s: Seq<char>) -> nat
    decreases s.len(),
{
    if s.len() == 0 {
        0
    } else {
        placeholders(s.drop_last()) + if s.last() == '?' {
            1nat
        } else {
            0nat
        }
    }
}

/// The placeholders of all of `items`.
pub open spec fn placeholders_all(items: Seq<Seq<char>>) -> nat
    decreases items.len(),
{
    if items.len() == 0 {
        0
    } else {
        placeholders_all(items.drop_last()) + placeholders(items.last())
    }
}

/// The comparisons among `ts` that bind a value: those not against `@null`.
pub open spec fn bound_comparisons(ts: Seq<TermModel>) -> nat
    decreases ts.len(),
{
    if ts.len() == 0 {
        0
    } else {
        bound_comparisons(ts.drop_last()) + match ts.last() {
            TermModel::Operation { value, .. } => if value.value == ValueModel::Text(null_marker()) {
                0nat
            } else {
                1nat
            },
            _ => 0nat,
        }
    }
}

/// Some term of `ts` is a keyword.
pub open spec fn has_keyword(ts: Seq<TermModel>) -> bool {
    exists|i: int| 0 <= i < ts.len() && ts[i] is Keyword
}

/// No configured column, keyword column or not, holds a `?`.
pub open spec fn config_plain(cfg: ColumnConfig) -> bool {
    &&& forall|i: int| 0 <= i < cfg.columns.len() ==> placeholders(#[trigger] cfg.columns[i]) == 0
    &&& forall|i: int| 0 <= i < cfg.keyword_columns.len() ==> placeholders(#[trigger] cfg.keyword_columns[i]) == 0
}

/// In a successful conversion that respects case, the columns that the
/// comparisons name are configured ones, so they hold no `?` either.
proof fn lemma_case_sensitive_columns_plain(cfg: ColumnConfig, ts: Seq<TermModel>)
    requires
        cfg.scan(ts) is Ok,
        !cfg.ignore_case,
        config_plain(cfg),
    ensures
        term_columns_plain(ts),
    decreases ts.len(),
{
    if ts.len() > 0 {
        let init = ts.drop_last();
        if cfg.scan(init) is Err {
            cfg.lemma_scan_error_persists(ts, ts.len() - 1);
            assert(ts.take(ts.len() - 1) =~= init);
        }
        lemma_case_sensitive_columns_plain(cfg, init);
        assert forall|i: int| 0 <= i < ts.len() implies match #[trigger] ts[i] {
            TermModel::Operation { column, .. } => placeholders(column.value) == 0,
            _ => true,
        } by {
            if i < init.len() {
                assert(init[i] == ts[i]);
            } else {
                assert(ts[i] == ts.last());
                match ts[i] {
                    TermModel::Operation { column, .. } => {
                        let j = choose|j: int| 0 <= j < cfg.columns.len() && cfg.columns[j] == column.value;
                        assert(placeholders(cfg.columns[j]) == 0);
                    },
                    _ => {},
                }
            }
        }
    }
}

/// No column that the comparisons of `ts` name holds a `?`.
pub open spec fn term_columns_plain(ts: Seq<TermModel>) -> bool {
    forall|i: int|
        0 <= i < ts.len() ==> match #[trigger] ts[i] {
            TermModel::Operation { column, .. } => placeholders(column.value) == 0,
            TermModel::SortBy { .. } => true,
            TermModel::Keyword { .. } => true,
        }
}

proof fn lemma_placeholders_concat(a: Seq<char>, b: Seq<char>)
    ensures
        placeholders(a + b) == placeholders(a) + placeholders(b),
    decreases b.len(),
{
    if b.len() == 0 {
        assert(a + b =~= a);
    } else {
        assert((a + b).drop_last() =~= a + b.drop_last());
        lemma_placeholders_concat(a, b.drop_last());
    }
}

proof fn lemma_placeholders_escape(s: Seq<char>)
    ensures
        placeholders(crate::ast::escape(s)) == placeholders(s),
    decreases s.len(),
{
    reveal_with_fuel(placeholders, 3);
    if s.len() > 0 {
        lemma_placeholders_escape(s.drop_last());
        lemma_placeholders_concat(crate::ast::escape(s.drop_last()), crate::ast::escape_char(s.last()));
        let e = crate::ast::escape_char(s.last());
        assert(e.drop_last().drop_last() =~= Seq::<char>::empty() || e.drop_last() =~= Seq::<char>::empty());
    }
}

proof fn lemma_placeholders_repr(cfg: ColumnConfig, c: Seq<char>)
    ensures
        placeholders(cfg.column_repr(c)) == placeholders(c),
{
    reveal_with_fuel(placeholders, 2);
    if !cfg.ignore_case {
        lemma_placeholders_escape(c);
        lemma_placeholders_concat(seq!['"'], crate::ast::escape(c));
        lemma_placeholders_concat(seq!['"'] + crate::ast::escape(c), seq!['"']);
        assert(seq!['"'].drop_last() =~= Seq::<char>::empty());
    }
}

proof fn lemma_placeholders_join(items: Seq<Seq<char>>, sep: Seq<char>)
    requires
        placeholders(sep) == 0,
    ensures
        placeholders(crate::ast::join(items, sep)) == placeholders_all(items),
    decreases items.len(),
{
    if items.len() == 0 {
        assert(placeholders(Seq::<char>::empty()) == 0);
    } else if items.len() == 1 {
        assert(items.drop_last() =~= Seq::<Seq<char>>::empty());
        assert(placeholders_all(items.drop_last()) == 0);
        assert(items.last() == items[0]);
    } else {
        lemma_placeholders_join(items.drop_last(), sep);
        lemma_placeholders_concat(crate::ast::join(items.drop_last(), sep), sep);
        lemma_placeholders_concat(crate::ast::join(items.drop_last(), sep) + sep, items.last());
    }
}

proof fn lemma_placeholders_all_push(items: Seq<Seq<char>>, x: Seq<char>)
    ensures
        placeholders_all(items.push(x)) == placeholders_all(items) + placeholders(x),
{
    assert(items.push(x).drop_last() =~= items);
}

/// Text literals of the output and how many placeholders they hold.
proof fn lemma_literal_placeholders()
    ensures
        placeholders(" IS NULL"@) == 0,
        placeholders(" IS NOT NULL"@) == 0,
        placeholders(" ?"@) == 1,
        placeholders(" "@) == 0,
        placeholders(" LIKE ?"@) == 1,
        placeholders(" OR "@) == 0,
        placeholders(" AND "@) == 0,
        placeholders("("@) == 0,
        placeholders(")"@) == 0,
        forall|op: Operator| placeholders(#[trigger] sql_operator(op)) == 0,
{
    reveal_strlit(" IS NULL");
    reveal_strlit(" IS NOT NULL");
    reveal_strlit(" ?");
    reveal_strlit(" ");
    reveal_strlit(" LIKE ?");
    reveal_strlit(" OR ");
    reveal_strlit(" AND ");
    reveal_strlit("(");
    reveal_strlit(")");
    reveal_strlit("LIKE");
    reveal_strlit("NOT LIKE");
    reveal_strlit("=");
    reveal_strlit("!=");
    reveal_strlit(">");
    reveal_strlit(">=");
    reveal_strlit("<");
    reveal_strlit("<=");
    reveal_with_fuel(placeholders, 13);
}

impl ColumnConfig {
    /// Scanning keeps one binding per placeholder among the comparisons,
    /// and records the keywords.
    proof fn lemma_scan_counts(self, ts: Seq<TermModel>)
        requires
            self.scan(ts) is Ok,
            term_columns_plain(ts),
        ensures
            placeholders_all(self.scan(ts)->Ok_0.normal) == bound_comparisons(ts),
            self.scan(ts)->Ok_0.bindings.len() == bound_comparisons(ts),
            self.scan(ts)->Ok_0.keywords.len() > 0 <==> has_keyword(ts),
        decreases ts.len(),
    {
        if ts.len() > 0 {
            let init = ts.drop_last();
            assert forall|i: int| 0 <= i < init.len() implies match #[trigger] init[i] {
                TermModel::Operation { column, .. } => placeholders(column.value) == 0,
                TermModel::SortBy { .. } => true,
                TermModel::Keyword { .. } => true,
            } by {
                assert(init[i] == ts[i]);
            }
            self.lemma_scan_counts(init);
            let acc = self.scan(init)->Ok_0;
            lemma_literal_placeholders();
            let t = ts.last();
            assert(t == ts[ts.len() - 1]);
            match t {
                TermModel::Operation { column, operator, value } => {
                    let r = self.column_repr(column.value);
                    lemma_placeholders_repr(self, column.value);
                    if value.value == ValueModel::Text(null_marker()) {
                        lemma_placeholders_concat(r, " IS NULL"@);
                        lemma_placeholders_concat(r, " IS NOT NULL"@);
                        lemma_placeholders_all_push(acc.normal, r + " IS NULL"@);
                        lemma_placeholders_all_push(acc.normal, r + " IS NOT NULL"@);
                    } else {
                        let c = r + " "@ + sql_operator(operator.value) + " ?"@;
                        lemma_placeholders_concat(r, " "@);
                        lemma_placeholders_concat(r + " "@, sql_operator(operator.value));
                        lemma_placeholders_concat(r + " "@ + sql_operator(operator.value), " ?"@);
                        lemma_placeholders_all_push(acc.normal, c);
                    }
                },
                _ => {},
            }
            if has_keyword(ts) && !(t is Keyword) {
                let i = choose|i: int| 0 <= i < ts.len() && ts[i] is Keyword;
                assert(init[i] is Keyword);
            }
            if has_keyword(init) {
                let i = choose|i: int| 0 <= i < init.len() && init[i] is Keyword;
                assert(ts[i] is Keyword);
            }
        }
    }
}

proof fn lemma_keyword_predicates_count(cfg: ColumnConfig, keywords: Seq<Seq<char>>, k: int)
    requires
        keywords.len() > 0,
        0 <= k <= cfg.keyword_columns.len(),
        forall|i: int| 0 <= i < cfg.keyword_columns.len() ==> placeholders(#[trigger] cfg.keyword_columns[i]) == 0,
    ensures
        placeholders_all(cfg.keyword_predicates(keywords).take(k)) == k,
    decreases k,
{
    if k > 0 {
        let ps = cfg.keyword_predicates(keywords);
        assert(ps.take(k).drop_last() =~= ps.take(k - 1));
        lemma_keyword_predicates_count(cfg, keywords, k - 1);
        let c = cfg.keyword_columns[k - 1];
        lemma_placeholders_repr(cfg, c);
        lemma_literal_placeholders();
        lemma_placeholders_concat(cfg.column_repr(c), " LIKE ?"@);
    }
}

/// In a successful conversion, the WHERE fragment holds one placeholder per
/// comparison that is not against `@null`, plus, when there is a keyword,
/// one per keyword column; and there are as many bindings as placeholders
/// (provided no configured column holds a `?`, nor, when case is ignored,
/// a column that a comparison names).
pub proof fn law_placeholder_count(cfg: ColumnConfig, ts: Seq<TermModel>)
    requires
        cfg.convert(ts) is Ok,
        config_plain(cfg),
        cfg.ignore_case ==> term_columns_plain(ts),
    ensures
        ({
            let w = cfg.convert(ts)->Ok_0;
            let expected = bound_comparisons(ts) + if has_keyword(ts) {
                cfg.keyword_columns.len()
            } else {
                0
            };
            &&& placeholders(w.where_clause) == expected
            &&& w.bindings.len() == expected
        }),
{
    if !cfg.ignore_case {
        lemma_case_sensitive_columns_plain(cfg, ts);
    }
    cfg.lemma_scan_counts(ts);
    let acc = cfg.scan(ts)->Ok_0;
    lemma_literal_placeholders();
    let kw = cfg.keyword_predicates(acc.keywords);
    let kn = if acc.keywords.len() > 0 {
        cfg.keyword_columns.len()
    } else {
        0
    };
    if acc.keywords.len() > 0 {
        lemma_keyword_predicates_count(cfg, acc.keywords, cfg.keyword_columns.len() as int);
        assert(kw.take(kw.len() as int) =~= kw);
    }
    assert(placeholders_all(kw) == kn);
    lemma_placeholders_join(kw, " OR "@);
    lemma_placeholders_join(acc.normal, " AND "@);
    let g1 = "("@ + crate::ast::join(kw, " OR "@) + ")"@;
    let g2 = "("@ + crate::ast::join(acc.normal, " AND "@) + ")"@;
    lemma_placeholders_concat("("@, crate::ast::join(kw, " OR "@));
    lemma_placeholders_concat("("@ + crate::ast::join(kw, " OR "@), ")"@);
    lemma_placeholders_concat("("@, crate::ast::join(acc.normal, " AND "@));
    lemma_placeholders_concat("("@ + crate::ast::join(acc.normal, " AND "@), ")"@);
    let groups = cfg.groups(acc);
    lemma_placeholders_join(groups, " AND "@);
    let a: Seq<Seq<char>> = if kw.len() > 0 { seq![g1] } else { Seq::empty() };
    let b: Seq<Seq<char>> = if acc.normal.len() > 0 { seq![g2] } else { Seq::empty() };
    assert(groups =~= a + b);
    if a.len() > 0 {
        assert(a.drop_last() =~= Seq::<Seq<char>>::empty());
        assert(placeholders_all(a) == placeholders_all(a.drop_last()) + placeholders(g1));
        assert(placeholders_all(a) == placeholders(g1));
    } else {
        assert(placeholders_all(a) == 0);
    }
    if b.len() > 0 {
        assert((a + b).drop_last() =~= a);
        assert(placeholders_all(a + b) == placeholders_all(a) + placeholders(g2));
    } else {
        assert(a + b =~= a);
    }
    if acc.normal.len() == 0 {
        assert(placeholders_all(acc.normal) == 0);
        assert(acc.bindings.len() == 0);
    }
    let kb = cfg.keyword_bindings(acc.keywords);
    if acc.keywords.len() > 0 {
        assert(kb.len() == cfg.keyword_columns.len());
    }
    assert(kw.len() == kb.len());
}

/// The items of `items` that hold a placeholder, in order.
pub open spec fn with_placeholders(items: Seq<Seq<char>>) -> Seq<Seq<char>>
    decreases items.len(),
{
    if items.len() == 0 {
        Seq::empty()
    } else if placeholders(items.last()) > 0 {
        with_placeholders(items.drop_last()).push(items.last())
    } else {
        with_placeholders(items.drop_last())
    }
}

proof fn lemma_with_placeholders_concat(a: Seq<Seq<char>>, b: Seq<Seq<char>>)
    ensures
        with_placeholders(a + b) == with_placeholders(a) + with_placeholders(b),
    decreases b.len(),
{
    if b.len() == 0 {
        assert(a + b =~= a);
        assert(with_placeholders(a) + with_placeholders(b) =~= with_placeholders(a));
    } else {
        assert((a + b).drop_last() =~= a + b.drop_last());
        lemma_with_placeholders_concat(a, b.drop_last());
        if placeholders(b.last()) > 0 {
            assert(with_placeholders(a) + with_placeholders(b) =~= (with_placeholders(a) + with_placeholders(
                b.drop_last(),
            )).push(b.last()));
        }
    }
}

impl ColumnConfig {
    /// A condition that compares the column of `b` by the SQL operator `o`
    /// with a placeholder.
    pub open spec fn binds(self, cond: Seq<char>, b: (Seq<char>, ValueModel)) -> bool {
        exists|o: Seq<char>| placeholders(o) == 0 && cond == #[trigger] (self.column_repr(b.0) + " "@ + o + " ?"@)
    }

    /// The conditions of a successful conversion, in the order in which the
    /// WHERE fragment holds them: the keyword predicates, then the comparisons.
    pub open spec fn conditions(self, ts: Seq<TermModel>) -> Seq<Seq<char>> {
        let acc = self.scan(ts)->Ok_0;
        self.keyword_predicates(acc.keywords) + acc.normal
    }

    proof fn lemma_binds_intro(self, cond: Seq<char>, b: (Seq<char>, ValueModel), o: Seq<char>)
        requires
            placeholders(o) == 0,
            cond == self.column_repr(b.0) + " "@ + o + " ?"@,
        ensures
            self.binds(cond, b),
    {
        assert(placeholders(o) == 0 && cond == (self.column_repr(b.0) + " "@ + o + " ?"@));
    }

    proof fn lemma_scan_binds(self, ts: Seq<TermModel>)
        requires
            self.scan(ts) is Ok,
            term_columns_plain(ts),
        ensures
            ({
                let acc = self.scan(ts)->Ok_0;
                let q = with_placeholders(acc.normal);
                &&& q.len() == acc.bindings.len()
                &&& forall|k: int| 0 <= k < q.len() ==> self.binds(#[trigger] q[k], acc.bindings[k])
            }),
        decreases ts.len(),
    {
        if ts.len() > 0 {
            let init = ts.drop_last();
            assert forall|i: int| 0 <= i < init.len() implies match #[trigger] init[i] {
                TermModel::Operation { column, .. } => placeholders(column.value) == 0,
                TermModel::SortBy { .. } => true,
                TermModel::Keyword { .. } => true,
            } by {
                assert(init[i] == ts[i]);
            }
            self.lemma_scan_binds(init);
            let acc = self.scan(init)->Ok_0;
            let now = self.scan(ts)->Ok_0;
            lemma_literal_placeholders();
            let t = ts.last();
            assert(t == ts[ts.len() - 1]);
            match t {
                TermModel::Operation { column, operator, value } => {
                    let r = self.column_repr(column.value);
                    lemma_placeholders_repr(self, column.value);
                    if value.value == ValueModel::Text(null_marker()) {
                        lemma_placeholders_concat(r, " IS NULL"@);
                        lemma_placeholders_concat(r, " IS NOT NULL"@);
                        assert(now.normal.drop_last() =~= acc.normal);
                    } else {
                        let o = sql_operator(operator.value);
                        let c = r + " "@ + o + " ?"@;
                        lemma_placeholders_concat(r, " "@);
                        lemma_placeholders_concat(r + " "@, o);
                        lemma_placeholders_concat(r + " "@ + o, " ?"@);
                        assert(now.normal.drop_last() =~= acc.normal);
                        let q = with_placeholders(now.normal);
                        assert(q =~= with_placeholders(acc.normal).push(c));
                        assert forall|k: int| 0 <= k < q.len() implies self.binds(#[trigger] q[k], now.bindings[k]) by {
                            if k == q.len() - 1 {
                                self.lemma_binds_intro(c, (column.value, value.value), o);
                            } else {
                                assert(q[k] == with_placeholders(acc.normal)[k]);
                                assert(now.bindings[k] == acc.bindings[k]);
                            }
                        }
                    }
                },
                _ => {},
            }
        }
    }
}

/// Bindings come in the order of the placeholders: the conditions that hold
/// a placeholder, in the order of the WHERE fragment, are as many as the
/// bindings, and the k-th of them compares the column of the k-th binding
/// (provided no configured column holds a `?`, nor, when case is ignored,
/// a column that a comparison names).
pub proof fn law_binding_order(cfg: ColumnConfig, ts: Seq<TermModel>)
    requires
        cfg.convert(ts) is Ok,
        config_plain(cfg),
        cfg.ignore_case ==> term_columns_plain(ts),
    ensures
        ({
            let w = cfg.convert(ts)->Ok_0;
            let acc = cfg.scan(ts)->Ok_0;
            let q = with_placeholders(cfg.conditions(ts));
            &&& w.where_clause == crate::ast::join(cfg.groups(acc), " AND "@)
            &&& q.len() == w.bindings.len()
            &&& forall|k: int| 0 <= k < q.len() ==> cfg.binds(#[trigger] q[k], w.bindings[k])
        }),
{
    if !cfg.ignore_case {
        lemma_case_sensitive_columns_plain(cfg, ts);
    }
    cfg.lemma_scan_binds(ts);
    cfg.lemma_scan_counts(ts);
    let acc = cfg.scan(ts)->Ok_0;
    let w = cfg.convert(ts)->Ok_0;
    let kw = cfg.keyword_predicates(acc.keywords);
    let kb = cfg.keyword_bindings(acc.keywords);
    lemma_with_placeholders_concat(kw, acc.normal);
    lemma_literal_placeholders();
    reveal_strlit(" LIKE ?");
    reveal_strlit(" ");
    reveal_strlit("LIKE");
    reveal_strlit(" ?");
    assert(" LIKE ?"@ =~= " "@ + "LIKE"@ + " ?"@);
    // every keyword predicate holds a placeholder and binds its keyword column
    assert forall|k: int| 0 <= k < kw.len() implies placeholders(#[trigger] kw[k]) > 0 && cfg.binds(kw[k], kb[k]) by {
        let c = cfg.keyword_columns[k];
        lemma_placeholders_repr(cfg, c);
        lemma_placeholders_concat(cfg.column_repr(c), " LIKE ?"@);
        assert(kw[k] == cfg.column_repr(c) + " "@ + "LIKE"@ + " ?"@);
        assert(sql_operator(Operator::Contains) == "LIKE"@);
        assert(kb[k].0 == c);
        cfg.lemma_binds_intro(kw[k], kb[k], "LIKE"@);
    }
    assert(with_placeholders(kw) =~= kw) by {
        lemma_all_with_placeholders(kw);
    }
    if acc.normal.len() == 0 {
        assert(with_placeholders(acc.normal) =~= Seq::<Seq<char>>::empty());
        assert(placeholders_all(acc.normal) == 0);
    }
    let q = with_placeholders(cfg.conditions(ts));
    assert(q == kw + with_placeholders(acc.normal));
    assert forall|k: int| 0 <= k < q.len() implies cfg.binds(#[trigger] q[k], w.bindings[k]) by {
        if k < kw.len() {
            assert(q[k] == kw[k]);
            assert(w.bindings[k] == kb[k]);
        } else {
            assert(q[k] == with_placeholders(acc.normal)[k - kw.len()]);
            assert(w.bindings[k] == acc.bindings[k - kw.len()]);
        }
    }
}

proof fn lemma_all_with_placeholders(items: Seq<Seq<char>>)
    requires
        forall|k: int| 0 <= k < items.len() ==> placeholders(#[trigger] items[k]) > 0,
    ensures
        with_placeholders(items) == items,
    decreases items.len(),
{
    if items.len() == 0 {
        assert(with_placeholders(items) =~= items);
    } else {
        let init = items.drop_last();
        assert forall|k: int| 0 <= k < init.len() implies placeholders(#[trigger] init[k]) > 0 by {
            assert(init[k] == items[k]);
        }
        lemma_all_with_placeholders(init);
        assert(placeholders(items.last()) > 0) by {
            assert(items.last() == items[items.len() - 1]);
        }
        assert(init.push(items.last()) =~= items);
    }
}

/// The predicate of a comparison with `@null`.
pub open spec fn null_predicate(cfg: ColumnConfig, column: Seq<char>, op: Operator) -> Seq<char> {
    cfg.column_repr(column) + if op == Operator::Eq {
        " IS NULL"@
    } else {
        " IS NOT NULL"@
    }
}

impl ColumnConfig {
    /// Scanning never leaves more bindings than comparisons.
    proof fn lemma_scan_bindings_le(self, ts: Seq<TermModel>)
        requires
            self.scan(ts) is Ok,
        ensures
            self.scan(ts)->Ok_0.bindings.len() <= self.scan(ts)->Ok_0.normal.len(),
        decreases ts.len(),
    {
        if ts.len() > 0 {
            if self.scan(ts.drop_last()) is Err {
                self.lemma_scan_error_persists(ts, ts.len() - 1);
                assert(ts.take(ts.len() - 1) =~= ts.drop_last());
            }
            self.lemma_scan_bindings_le(ts.drop_last());
        }
    }

    /// Scanning with a comparison with `@null` gives what scanning without it
    /// gives, with its predicate among the comparisons.
    proof fn lemma_scan_without_null(self, ts: Seq<TermModel>, i: int)
        requires
            0 <= i < ts.len(),
            self.scan(ts) is Ok,
            ts[i] is Operation,
            ts[i]->Operation_value.value == ValueModel::Text(null_marker()),
        ensures
            self.scan(ts.remove(i)) is Ok,
            ({
                let a = self.scan(ts)->Ok_0;
                let b = self.scan(ts.remove(i))->Ok_0;
                let c = null_predicate(self, ts[i]->Operation_column.value, ts[i]->Operation_operator.value);
                &&& a.keywords == b.keywords
                &&& a.bindings == b.bindings
                &&& a.orders == b.orders
                &&& exists|k: int| 0 <= k <= b.normal.len() && a.normal == b.normal.insert(k, c)
            }),
        decreases ts.len(),
    {
        let init = ts.drop_last();
        if self.scan(init) is Err {
            self.lemma_scan_error_persists(ts, ts.len() - 1);
            assert(ts.take(ts.len() - 1) =~= init);
        }
        let c = null_predicate(self, ts[i]->Operation_column.value, ts[i]->Operation_operator.value);
        if i == ts.len() - 1 {
            assert(ts.remove(i) =~= init);
            let b = self.scan(init)->Ok_0;
            let a = self.scan(ts)->Ok_0;
            assert(ts.last() == ts[i]);
            assert(a.normal =~= b.normal.insert(b.normal.len() as int, c));
        } else {
            self.lemma_scan_without_null(init, i);
            assert(init[i] == ts[i]);
            let r = ts.remove(i);
            assert(r.drop_last() =~= init.remove(i));
            assert(r.last() == ts.last());
            let a0 = self.scan(init)->Ok_0;
            let b0 = self.scan(init.remove(i))->Ok_0;
            let k = choose|k: int| 0 <= k <= b0.normal.len() && a0.normal == b0.normal.insert(k, c);
            let a = self.scan(ts)->Ok_0;
            let b = self.scan(r)->Ok_0;
            assert(a.normal =~= b.normal.insert(k, c));
        }
    }
}

/// A comparison with `@null` by `=` or `!=` takes no binding: the terms
/// with it convert to the bindings of the terms without it, and its
/// `IS NULL` or `IS NOT NULL` predicate stands among the comparisons at the
/// place of the term.
pub proof fn law_null_takes_no_binding(cfg: ColumnConfig, ts: Seq<TermModel>, i: int)
    requires
        0 <= i < ts.len(),
        cfg.convert(ts) is Ok,
        ts[i] is Operation,
        ts[i]->Operation_value.value == ValueModel::Text(null_marker()),
    ensures
        cfg.convert(ts.remove(i)) is Ok,
        cfg.convert(ts)->Ok_0.bindings == cfg.convert(ts.remove(i))->Ok_0.bindings,
        ({
            let a = cfg.scan(ts)->Ok_0;
            let b = cfg.scan(ts.remove(i))->Ok_0;
            let c = null_predicate(cfg, ts[i]->Operation_column.value, ts[i]->Operation_operator.value);
            exists|k: int| 0 <= k <= b.normal.len() && a.normal == b.normal.insert(k, c)
        }),
{
    cfg.lemma_scan_without_null(ts, i);
    let a = cfg.scan(ts)->Ok_0;
    let b = cfg.scan(ts.remove(i))->Ok_0;
    cfg.lemma_scan_bindings_le(ts.remove(i));
    let c = null_predicate(cfg, ts[i]->Operation_column.value, ts[i]->Operation_operator.value);
    let k = choose|k: int| 0 <= k <= b.normal.len() && a.normal == b.normal.insert(k, c);
    assert(a.normal.len() == b.normal.len() + 1);
    if b.normal.len() == 0 {
        assert(b.bindings.len() == 0);
        assert(a.bindings =~= Seq::<(Seq<char>, ValueModel)>::empty());
    }
    assert(cfg.keyword_predicates(a.keywords) == cfg.keyword_predicates(b.keywords));
}

} // verus!
