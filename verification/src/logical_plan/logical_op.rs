//! The relational operations a logical plan can hold, and the predicates
//! and field identifiers they carry.

use vstd::prelude::*;
use vstd::string::StringSliceAdditionalSpecFns;
use vstd::utf8::encode_utf8;
use crate::common::Field;

verus! {

/// A relational operation in a logical query plan.
#[derive(Debug)]
pub enum LogicalOp {
    Scan(ScanNode),
    Project(ProjectNode),
    Aggregate(AggregateNode),
    Join(JoinNode),
    Filter(FilterNode),
}

/// Scan of one table, under an alias.
#[derive(Debug)]
pub struct ScanNode {
    /// Alias to rename when scanning.
    pub alias: String,
}

/// Projection to a subset of columns.
#[derive(Debug)]
pub struct ProjectNode {
    /// Which columns to keep.
    pub identifiers: ProjectIdentifiers,
}

/// Which columns a projection keeps.
#[derive(Debug)]
pub enum ProjectIdentifiers {
    /// All columns.
    Wildcard,
    /// The listed columns.
    List(Vec<FieldIdentifier>),
}

/// Aggregation over fields, grouped by other fields.
#[derive(Debug)]
pub struct AggregateNode {
    /// Fields to aggregate.
    pub fields: Vec<FieldIdentifier>,
    /// Fields to group by.
    pub group_by: Vec<FieldIdentifier>,
}

/// Join of two inputs on a comparison of one field from each.
#[derive(Debug)]
pub struct JoinNode {
    /// Left side of the operator.
    pub left: FieldIdentifier,
    /// Right side of the operator.
    pub right: FieldIdentifier,
    /// Predicate operator.
    pub op: PredicateOp,
    /// Left table name, or nothing for a derived input.
    pub left_table: Option<String>,
    /// Right table name, or nothing for a derived input.
    pub right_table: Option<String>,
}

/// Filter of one input by a predicate.
#[derive(Debug)]
pub struct FilterNode {
    /// Table to filter.
    pub table: String,
    /// Predicate to filter by.
    pub predicate: PredicateNode,
}

/// Comparison operators of predicates.
#[derive(Debug, Clone, Copy, PartialEq, Eq, Structural)]
pub enum PredicateOp {
    Equals,
    GreaterThan,
    LessThan,
    LessThanOrEq,
    GreaterThanOrEq,
    NotEq,
    All,
}

/// Whether two fields hold the same value: equal integers, or strings
/// with the same encoded bytes, the way std compares them; an integer
/// never equals a string.
pub open spec fn field_eq(a: Field, b: Field) -> bool {
    match (a, b) {
        (Field::IntField(x), Field::IntField(y)) => x == y,
        (Field::StringField(s), Field::StringField(t)) => encode_utf8(s@) == encode_utf8(t@),
        _ => false,
    }
}

/// Strict lexicographic order on byte strings.
pub open spec fn bytes_lt(a: Seq<u8>, b: Seq<u8>) -> bool
    decreases a.len(),
{
    if b.len() == 0 {
        false
    } else if a.len() == 0 {
        true
    } else if a[0] != b[0] {
        a[0] < b[0]
    } else {
        bytes_lt(a.drop_first(), b.drop_first())
    }
}

/// Whether `a` orders strictly before `b`: integers before strings,
/// integers by value, strings by their encoded bytes, the way std orders
/// them.
pub open spec fn field_lt(a: Field, b: Field) -> bool {
    match (a, b) {
        (Field::IntField(x), Field::IntField(y)) => x < y,
        (Field::IntField(_), Field::StringField(_)) => true,
        (Field::StringField(_), Field::IntField(_)) => false,
        (Field::StringField(s), Field::StringField(t)) => bytes_lt(
            encode_utf8(s@),
            encode_utf8(t@),
        ),
    }
}

/// Three-way comparison of byte slices: negative, zero or positive as the
/// left one orders before, equal to, or after the right one.
fn cmp_bytes(a: &[u8], b: &[u8]) -> (r: i8)
    ensures
        r == -1 <==> bytes_lt(a@, b@),
        r == 1 <==> bytes_lt(b@, a@),
        r == 0 <==> a@ == b@,
{
    let na = a.len();
    let nb = b.len();
    let mut i: usize = 0;
    loop
        invariant
            i <= na,
            i <= nb,
            na == a@.len(),
            nb == b@.len(),
            a@.subrange(0, i as int) =~= b@.subrange(0, i as int),
            forall|j: int| 0 <= j < i ==> a@[j] == b@[j],
        ensures
            (i == na || i == nb || a@[i as int] != b@[i as int]),
            i <= na,
            i <= nb,
            forall|j: int| 0 <= j < i ==> a@[j] == b@[j],
        decreases na - i,
    {
        if i >= na || i >= nb {
            break;
        }
        if a[i] != b[i] {
            break;
        }
        i = i + 1;
    }
    proof {
        lemma_bytes_lt_common_prefix(a@, b@, i as int);
    }
    if i < na && i < nb {
        if a[i] < b[i] {
            -1
        } else {
            1
        }
    } else if i < nb {
        -1
    } else if i < na {
        1
    } else {
        proof {
            assert(a@ =~= b@);
        }
        0
    }
}

/// After an equal prefix of length `i`, the order of two byte strings is
/// decided by length or by the first differing byte.
proof fn lemma_bytes_lt_common_prefix(a: Seq<u8>, b: Seq<u8>, i: int)
    requires
        0 <= i <= a.len(),
        i <= b.len(),
        forall|j: int| 0 <= j < i ==> a[j] == b[j],
    ensures
        i < a.len() && i < b.len() && a[i] != b[i] ==> (bytes_lt(a, b) <==> a[i] < b[i]),
        i < a.len() && i < b.len() && a[i] != b[i] ==> (bytes_lt(b, a) <==> b[i] < a[i]),
        i == a.len() && i < b.len() ==> bytes_lt(a, b) && !bytes_lt(b, a),
        i == b.len() && i < a.len() ==> bytes_lt(b, a) && !bytes_lt(a, b),
        i == a.len() && i == b.len() ==> !bytes_lt(a, b) && !bytes_lt(b, a),
    decreases i,
{
    if i > 0 {
        assert(a[0] == b[0]);
        lemma_bytes_lt_common_prefix(a.drop_first(), b.drop_first(), i - 1);
        assert forall|j: int| 0 <= j < i - 1 implies a.drop_first()[j] == b.drop_first()[j] by {
            assert(a[j + 1] == b[j + 1]);
        }
        lemma_bytes_lt_common_prefix(a.drop_first(), b.drop_first(), i - 1);
        assert(a.drop_first().len() == a.len() - 1);
        if i < a.len() && i < b.len() {
            assert(a.drop_first()[i - 1] == a[i]);
            assert(b.drop_first()[i - 1] == b[i]);
        }
    }
}

impl PredicateOp {
    /// Apply the comparison to two fields: integers order by value and
    /// before all strings, strings order by their encoded bytes, and a
    /// field equals only a field of its own kind with the same value.
    pub fn compare(&self, left_field: &Field, right_field: &Field) -> (r: bool)
        ensures
            r == match self {
                PredicateOp::Equals => field_eq(*left_field, *right_field),
                PredicateOp::GreaterThan => field_lt(*right_field, *left_field),
                PredicateOp::LessThan => field_lt(*left_field, *right_field),
                PredicateOp::LessThanOrEq => !field_lt(*right_field, *left_field),
                PredicateOp::GreaterThanOrEq => !field_lt(*left_field, *right_field),
                PredicateOp::NotEq => !field_eq(*left_field, *right_field),
                PredicateOp::All => true,
            },
    {
        let ord: i8 = match (left_field, right_field) {
            (Field::IntField(x), Field::IntField(y)) => {
                if *x < *y {
                    -1
                } else if *x == *y {
                    0
                } else {
                    1
                }
            },
            (Field::IntField(_), Field::StringField(_)) => -1,
            (Field::StringField(_), Field::IntField(_)) => 1,
            (Field::StringField(s), Field::StringField(t)) => {
                cmp_bytes(s.as_str().as_bytes(), t.as_str().as_bytes())
            },
        };
        match self {
            PredicateOp::Equals => ord == 0,
            PredicateOp::GreaterThan => ord == 1,
            PredicateOp::LessThan => ord == -1,
            PredicateOp::LessThanOrEq => ord != 1,
            PredicateOp::GreaterThanOrEq => ord != -1,
            PredicateOp::NotEq => ord != 0,
            PredicateOp::All => true,
        }
    }

    /// The operator with its sides swapped: order comparisons flip, the
    /// symmetric operators stay.
    pub fn flip(&self) -> (r: Self)
        ensures
            r == match self {
                PredicateOp::GreaterThan => PredicateOp::LessThan,
                PredicateOp::LessThan => PredicateOp::GreaterThan,
                PredicateOp::LessThanOrEq => PredicateOp::GreaterThanOrEq,
                PredicateOp::GreaterThanOrEq => PredicateOp::LessThanOrEq,
                op => *op,
            },
    {
        match self {
            PredicateOp::GreaterThan => PredicateOp::LessThan,
            PredicateOp::LessThan => PredicateOp::GreaterThan,
            PredicateOp::LessThanOrEq => PredicateOp::GreaterThanOrEq,
            PredicateOp::GreaterThanOrEq => PredicateOp::LessThanOrEq,
            op => *op,
        }
    }
}

/// One side of a predicate: a literal value or a field reference.
#[derive(Debug)]
pub enum PredExpr {
    Literal(Field),
    Ident(FieldIdentifier),
}

impl PredExpr {
    /// The field identifier, when this side references a field.
    pub fn ident(&self) -> (r: Option<&FieldIdentifier>)
        ensures
            match self {
                PredExpr::Ident(i) => r == Some(i),
                PredExpr::Literal(_) => r is None,
            },
    {
        match self {
            PredExpr::Ident(i) => Some(i),
            PredExpr::Literal(_) => None,
        }
    }
}

/// A predicate: two sides and the comparison between them.
#[derive(Debug)]
pub struct PredicateNode {
    pub left: PredExpr,
    pub op: PredicateOp,
    pub right: PredExpr,
}

/// Aggregation operations.
#[derive(Debug, Clone, Copy, PartialEq, Eq, Structural)]
pub enum AggOp {
    Avg,
    Count,
    Max,
    Min,
    Sum,
}

/// The lower-case name of an aggregation operation.
pub open spec fn agg_op_text(op: AggOp) -> Seq<char> {
    match op {
        AggOp::Avg => "avg"@,
        AggOp::Count => "count"@,
        AggOp::Max => "max"@,
        AggOp::Min => "min"@,
        AggOp::Sum => "sum"@,
    }
}

impl AggOp {
    /// The lower-case name of the operation.
    pub fn to_text(&self) -> (r: String)
        ensures
            r@ == agg_op_text(*self),
    {
        match self {
            AggOp::Avg => String::from_str("avg"),
            AggOp::Count => String::from_str("count"),
            AggOp::Max => String::from_str("max"),
            AggOp::Min => String::from_str("min"),
            AggOp::Sum => String::from_str("sum"),
        }
    }
}

/// A column reference: the table and column it names, an output alias,
/// and an aggregation applied to it, when any.
#[derive(Debug)]
pub struct FieldIdentifier {
    /// The table the column belongs to.
    pub table: String,
    /// The column being referenced.
    pub column: String,
    /// The alias given to the output field, if any.
    pub alias: Option<String>,
    /// An aggregation performed on the column, if any.
    pub op: Option<AggOp>,
}

impl FieldIdentifier {
    /// A new identifier for a table's column, with no alias and no
    /// aggregation.
    pub fn new(table: &str, column: &str) -> (r: Self)
        ensures
            r.table@ == table@,
            r.column@ == column@,
            r.alias is None,
            r.op is None,
    {
        FieldIdentifier {
            table: table.to_owned(),
            column: column.to_owned(),
            alias: None,
            op: None,
        }
    }

    /// A new identifier with an output alias.
    pub fn new_column_alias(table: &str, column: &str, alias: &str) -> (r: Self)
        ensures
            r.table@ == table@,
            r.column@ == column@,
            r.alias matches Some(a) && a@ == alias@,
            r.op is None,
    {
        FieldIdentifier {
            table: table.to_owned(),
            column: column.to_owned(),
            alias: Some(alias.to_owned()),
            op: None,
        }
    }

    /// The table name.
    pub fn table(&self) -> (r: &str)
        ensures
            r@ == self.table@,
    {
        self.table.as_str()
    }

    /// The column name.
    pub fn column(&self) -> (r: &str)
        ensures
            r@ == self.column@,
    {
        self.column.as_str()
    }

    /// The output alias, if any.
    pub fn alias(&self) -> (r: Option<&str>)
        ensures
            match self.alias {
                Some(_) => r matches Some(a) && a@ == self.alias.unwrap()@,
                None => r is None,
            },
    {
        match &self.alias {
            Some(a) => Some(a.as_str()),
            None => None,
        }
    }

    /// The aggregation applied to the column, if any.
    pub fn agg_op(&self) -> (r: Option<AggOp>)
        ensures
            r == self.op,
    {
        self.op
    }

    /// Set the output alias.
    pub fn set_alias(&mut self, alias: String)
        ensures
            final(self).alias == Some(alias),
            final(self).table == old(self).table,
            final(self).column == old(self).column,
            final(self).op == old(self).op,
    {
        self.alias = Some(alias);
    }

    /// When an aggregation is set, alias the output as the operation's
    /// name, an underscore, and the column name.
    pub fn default_alias(&mut self)
        ensures
            final(self).table == old(self).table,
            final(self).column == old(self).column,
            final(self).op == old(self).op,
            match old(self).op {
                Some(op) => final(self).alias matches Some(a) && a@ == agg_op_text(op) + "_"@
                    + old(self).column@,
                None => final(self).alias == old(self).alias,
            },
    {
        match self.op {
            Some(op) => {
                let mut a = op.to_text();
                a.append("_");
                a.append(self.column.as_str());
                self.alias = Some(a);
            },
            None => {},
        }
    }

    /// Set the aggregation applied to the column.
    pub fn set_op(&mut self, op: AggOp)
        ensures
            final(self).op == Some(op),
            final(self).table == old(self).table,
            final(self).column == old(self).column,
            final(self).alias == old(self).alias,
    {
        self.op = Some(op);
    }
}

} // verus!
