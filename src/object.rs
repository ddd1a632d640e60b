use vstd::prelude::*;
use vstd::string::*;

verus! {

/// The mathematical model of an expression.
pub enum Value {
    Void,
    Number(int),
    Symbol(Seq<char>),
    Bool(bool),
    List(Seq<Value>),
    Lambda(Seq<Seq<char>>, Seq<Value>),
}

/// An expression: a parsed program node and a runtime value at once.
#[derive(Debug, PartialEq)]
pub enum Object {
    Void,
    Number(i64),
    Symbol(String),
    Bool(bool),
    List(Vec<Object>),
    Lambda(Vec<String>, Vec<Object>),
}

pub open spec fn names_view(v: Seq<String>) -> Seq<Seq<char>> {
    Seq::new(v.len(), |i: int| v[i]@)
}

/// The model of each object of a sequence, in order.
pub open spec fn objects_view(s: Seq<Object>) -> Seq<Value>
    decreases s,
{
    if s.len() == 0 {
        Seq::empty()
    } else {
        objects_view(s.drop_last()).push(s.last()@)
    }
}

impl View for Object {
    type V = Value;

    open spec fn view(&self) -> Value
        decreases self,
    {
        match self {
            Object::Void => Value::Void,
            Object::Number(n) => Value::Number(*n as int),
            Object::Symbol(s) => Value::Symbol(s@),
            Object::Bool(b) => Value::Bool(*b),
            Object::List(l) => Value::List(objects_view(l@)),
            Object::Lambda(p, b) => Value::Lambda(names_view(p@), objects_view(b@)),
        }
    }
}

impl Object {
    /// A deep copy, equal to the original in the model.
    pub fn copy(&self) -> (r: Object)
        ensures
            r@ == self@,
        decreases self,
    {
        match self {
            Object::Void => Object::Void,
            Object::Number(n) => Object::Number(*n),
            Object::Symbol(s) => Object::Symbol(s.clone()),
            Object::Bool(b) => Object::Bool(*b),
            Object::List(l) => Object::List(copy_objects(l)),
            Object::Lambda(p, b) => Object::Lambda(copy_names(p), copy_objects(b)),
        }
    }
}

/// Two sequences whose objects have pairwise equal models have equal models.
pub proof fn lemma_objects_view_pointwise(a: Seq<Object>, b: Seq<Object>)
    requires
        a.len() == b.len(),
        forall|i: int| 0 <= i < a.len() ==> #[trigger] a[i]@ == b[i]@,
    ensures
        objects_view(a) == objects_view(b),
    decreases a.len(),
{
    if a.len() > 0 {
        assert forall|i: int| 0 <= i < a.len() - 1 implies #[trigger] a.drop_last()[i]@
            == b.drop_last()[i]@ by {
            assert(a[i]@ == b[i]@);
        }
        lemma_objects_view_pointwise(a.drop_last(), b.drop_last());
        assert(a.last()@ == b[b.len() - 1]@);
    }
}

/// The model of a sequence has its length, and its entries are the entries' models.
pub proof fn lemma_objects_view_index(s: Seq<Object>)
    ensures
        objects_view(s).len() == s.len(),
        forall|i: int| 0 <= i < s.len() ==> #[trigger] objects_view(s)[i] == s[i]@,
    decreases s.len(),
{
    if s.len() > 0 {
        lemma_objects_view_index(s.drop_last());
        assert(objects_view(s) == objects_view(s.drop_last()).push(s.last()@));
        assert forall|i: int| 0 <= i < s.len() implies #[trigger] objects_view(s)[i] == s[i]@ by {
            if i < s.len() - 1 {
                assert(s.drop_last()[i] == s[i]);
            }
        }
    }
}

/// Appending an object appends its model.
pub proof fn lemma_objects_view_push(s: Seq<Object>, o: Object)
    ensures
        objects_view(s.push(o)) == objects_view(s).push(o@),
{
    assert(s.push(o).drop_last() =~= s);
}

pub fn copy_objects(l: &Vec<Object>) -> (r: Vec<Object>)
    ensures
        objects_view(r@) == objects_view(l@),
    decreases l,
{
    let mut r: Vec<Object> = Vec::new();
    let mut i: usize = 0;
    while i < l.len()
        invariant
            i <= l@.len(),
            r@.len() == i,
            forall|k: int| 0 <= k < i ==> #[trigger] r@[k]@ == l@[k]@,
        decreases l@.len() - i,
    {
        r.push(l[i].copy());
        i = i + 1;
    }
    proof {
        lemma_objects_view_pointwise(r@, l@);
    }
    r
}

pub fn copy_names(p: &Vec<String>) -> (r: Vec<String>)
    ensures
        names_view(r@) == names_view(p@),
{
    let mut r: Vec<String> = Vec::new();
    let mut i: usize = 0;
    while i < p.len()
        invariant
            i <= p@.len(),
            r@.len() == i,
            forall|k: int| 0 <= k < i ==> #[trigger] r@[k]@ == p@[k]@,
        decreases p@.len() - i,
    {
        r.push(p[i].clone());
        i = i + 1;
    }
    assert(names_view(r@) =~= names_view(p@));
    r
}

/// The text of one decimal digit.
pub open spec fn digit_text(d: nat) -> Seq<char> {
    if d == 0 {
        "0"@
    } else if d == 1 {
        "1"@
    } else if d == 2 {
        "2"@
    } else if d == 3 {
        "3"@
    } else if d == 4 {
        "4"@
    } else if d == 5 {
        "5"@
    } else if d == 6 {
        "6"@
    } else if d == 7 {
        "7"@
    } else if d == 8 {
        "8"@
    } else {
        "9"@
    }
}

/// The decimal digits of a natural number, most significant first.
pub open spec fn nat_text(m: nat) -> Seq<char>
    decreases m,
{
    if m < 10 {
        digit_text(m)
    } else {
        nat_text(m / 10) + digit_text(m % 10)
    }
}

/// The decimal text of an integer, with a minus sign where it is negative.
pub open spec fn int_text(n: int) -> Seq<char> {
    if n < 0 {
        "-"@ + nat_text((-n) as nat)
    } else {
        nat_text(n as nat)
    }
}

/// The text of an expression: numbers, symbols and booleans as written, lists
/// as their elements' texts between parentheses, separated by one space.
pub open spec fn render_spec(v: Value) -> Seq<char>
    decreases v,
{
    match v {
        Value::Void => "Void"@,
        Value::Number(n) => int_text(n),
        Value::Symbol(s) => s,
        Value::Bool(b) => if b {
            "true"@
        } else {
            "false"@
        },
        Value::List(items) => "("@ + join_spec(items) + ")"@,
        Value::Lambda(ps, body) => "Lambda("@ + join_names(ps) + ")"@ + body_spec(body),
    }
}

/// The texts of a sequence of expressions, separated by one space.
pub open spec fn join_spec(s: Seq<Value>) -> Seq<char>
    decreases s,
{
    if s.len() == 0 {
        Seq::empty()
    } else if s.len() == 1 {
        render_spec(s[0])
    } else {
        join_spec(s.drop_last()) + " "@ + render_spec(s.last())
    }
}

/// The texts of a lambda's body, each after one space.
pub open spec fn body_spec(s: Seq<Value>) -> Seq<char>
    decreases s,
{
    if s.len() == 0 {
        Seq::empty()
    } else {
        body_spec(s.drop_last()) + " "@ + render_spec(s.last())
    }
}

/// Names separated by one space.
pub open spec fn join_names(s: Seq<Seq<char>>) -> Seq<char>
    decreases s.len(),
{
    if s.len() == 0 {
        Seq::empty()
    } else if s.len() == 1 {
        s[0]
    } else {
        join_names(s.drop_last()) + " "@ + s.last()
    }
}

fn digit_str(d: u64) -> (r: &'static str)
    requires
        d < 10,
    ensures
        r@ == digit_text(d as nat),
{
    if d == 0 {
        "0"
    } else if d == 1 {
        "1"
    } else if d == 2 {
        "2"
    } else if d == 3 {
        "3"
    } else if d == 4 {
        "4"
    } else if d == 5 {
        "5"
    } else if d == 6 {
        "6"
    } else if d == 7 {
        "7"
    } else if d == 8 {
        "8"
    } else {
        "9"
    }
}

/// Appends the decimal digits of `m`.
pub fn push_nat_text(out: &mut String, m: u64)
    ensures
        final(out)@ == old(out)@ + nat_text(m as nat),
    decreases m,
{
    if m >= 10 {
        push_nat_text(out, m / 10);
    }
    out.append(digit_str(m % 10));
    assert(final(out)@ =~= old(out)@ + nat_text(m as nat));
}

/// Appends the decimal text of `n`.
pub fn push_int_text(out: &mut String, n: i64)
    ensures
        final(out)@ == old(out)@ + int_text(n as int),
{
    if n < 0 {
        out.append("-");
        let m: u64 = (-(n as i128)) as u64;
        push_nat_text(out, m);
        assert(final(out)@ =~= old(out)@ + int_text(n as int));
    } else {
        push_nat_text(out, n as u64);
    }
}

/// Appends the texts of the expressions, separated by one space.
fn push_join_text(l: &Vec<Object>, out: &mut String)
    ensures
        final(out)@ == old(out)@ + join_spec(objects_view(l@)),
    decreases l,
{
    let ghost start = out@;
    proof {
        lemma_objects_view_index(l@);
    }
    let mut i: usize = 0;
    while i < l.len()
        invariant
            i <= l@.len(),
            objects_view(l@).len() == l@.len(),
            forall|k: int| 0 <= k < l@.len() ==> #[trigger] objects_view(l@)[k] == l@[k]@,
            out@ == start + join_spec(objects_view(l@).subrange(0, i as int)),
        decreases l@.len() - i,
    {
        let ghost sub = objects_view(l@).subrange(0, i + 1);
        assert(sub.drop_last() =~= objects_view(l@).subrange(0, i as int));
        if i > 0 {
            out.append(" ");
        }
        l[i].push_text(out);
        assert(out@ =~= start + join_spec(sub));
        i = i + 1;
    }
    assert(objects_view(l@).subrange(0, l@.len() as int) =~= objects_view(l@));
}

/// Appends the texts of the expressions, each after one space.
fn push_body_text(b: &Vec<Object>, out: &mut String)
    ensures
        final(out)@ == old(out)@ + body_spec(objects_view(b@)),
    decreases b,
{
    let ghost mid = out@;
    proof {
        lemma_objects_view_index(b@);
    }
    let mut k: usize = 0;
    while k < b.len()
        invariant
            k <= b@.len(),
            objects_view(b@).len() == b@.len(),
            forall|j: int| 0 <= j < b@.len() ==> #[trigger] objects_view(b@)[j] == b@[j]@,
            out@ == mid + body_spec(objects_view(b@).subrange(0, k as int)),
        decreases b@.len() - k,
    {
        let ghost sub = objects_view(b@).subrange(0, k + 1);
        assert(sub.drop_last() =~= objects_view(b@).subrange(0, k as int));
        out.append(" ");
        b[k].push_text(out);
        assert(out@ =~= mid + body_spec(sub));
        k = k + 1;
    }
    assert(objects_view(b@).subrange(0, b@.len() as int) =~= objects_view(b@));
}

impl Object {
    /// Appends the text of this expression.
    pub fn push_text(&self, out: &mut String)
        ensures
            final(out)@ == old(out)@ + render_spec(self@),
        decreases self,
    {
        match self {
            Object::Void => {
                out.append("Void");
            },
            Object::Number(n) => {
                push_int_text(out, *n);
            },
            Object::Symbol(s) => {
                out.append(s.as_str());
            },
            Object::Bool(b) => {
                if *b {
                    out.append("true");
                } else {
                    out.append("false");
                }
            },
            Object::List(l) => {
                out.append("(");
                push_join_text(l, out);
                out.append(")");
                assert(final(out)@ =~= old(out)@ + render_spec(self@));
            },
            Object::Lambda(p, b) => {
                out.append("Lambda(");
                let ghost start = out@;
                let mut i: usize = 0;
                while i < p.len()
                    invariant
                        i <= p@.len(),
                        out@ == start + join_names(names_view(p@).subrange(0, i as int)),
                    decreases p@.len() - i,
                {
                    let ghost sub = names_view(p@).subrange(0, i + 1);
                    assert(sub.drop_last() =~= names_view(p@).subrange(0, i as int));
                    if i > 0 {
                        out.append(" ");
                    }
                    out.append(p[i].as_str());
                    assert(out@ =~= start + join_names(sub));
                    i = i + 1;
                }
                assert(names_view(p@).subrange(0, p@.len() as int) =~= names_view(p@));
                out.append(")");
                push_body_text(b, out);
                assert(final(out)@ =~= old(out)@ + render_spec(self@));
            },
        }
    }

    /// The text of this expression.
    pub fn render(&self) -> (r: String)
        ensures
            r@ == render_spec(self@),
    {
        let mut out = String::new();
        self.push_text(&mut out);
        assert(out@ =~= render_spec(self@));
        out
    }
}

} // verus!
