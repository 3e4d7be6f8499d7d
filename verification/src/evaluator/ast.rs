//! The circuit as the evaluator takes it: templates made of statements, and
//! the component `main` that instantiates one of them.
use crate::algebra::field::FS;
use crate::storage::types::SignalType;
use vstd::prelude::*;
use vstd::string::*;

verus! {

#[derive(Debug)]
pub enum Expression {
    /// A literal.
    Number(FS),
    /// A local variable, or else a signal of the component, by its short name.
    Variable(String),
    /// A signal of a sub-component: the component's name, then the signal's.
    Pin(String, String),
    Neg(Box<Expression>),
    Add(Box<Expression>, Box<Expression>),
    Sub(Box<Expression>, Box<Expression>),
    Mul(Box<Expression>, Box<Expression>),
}

/// The signal that an assignment is made to.
#[derive(Debug)]
pub enum Target {
    /// A signal of the component, by its short name.
    Signal(String),
    /// A signal of a sub-component: the component's name, then the signal's.
    Pin(String, String),
}

#[derive(Debug)]
pub enum Statement {
    /// `signal <type> name;`
    Signal { name: String, xtype: SignalType },
    /// `var name;` or `var name = init;`
    Variable { name: String, init: Option<Expression> },
    /// `name = value;` for a local variable
    Assign { name: String, value: Expression },
    /// `component name = template(arguments);`
    Component { name: String, template: String, arguments: Vec<Expression> },
    /// `target <== value;`
    ConstrainedAssign { target: Target, value: Expression },
    /// `target <-- value;`
    Hint { target: Target, value: Expression },
    /// `left === right;`
    Constrain { left: Expression, right: Expression },
}

#[derive(Debug)]
pub struct Template {
    pub name: String,
    /// The names of the parameters: constants that an instance is given.
    pub parameters: Vec<String>,
    pub body: Vec<Statement>,
}

/// A circuit: its templates, and the template that `main` instantiates,
/// without arguments.
#[derive(Debug)]
pub struct Circuit {
    pub templates: Vec<Template>,
    pub main: String,
}

/// The index of the first template of a name.
pub open spec fn template_index(templates: Seq<Template>, name: Seq<char>) -> Option<int>
    decreases templates.len(),
{
    if templates.len() == 0 {
        None
    } else {
        match template_index(templates.drop_last(), name) {
            Some(i) => Some(i),
            None => if templates.last().name@ == name {
                Some(templates.len() - 1)
            } else {
                None
            },
        }
    }
}

impl Circuit {
    /// Finds the first template of a name.
    pub fn find_template(&self, name: &str) -> (r: Option<usize>)
        ensures
            match r {
                Some(i) => template_index(self.templates@, name@) == Some(i as int) && i
                    < self.templates@.len(),
                None => template_index(self.templates@, name@) is None,
            },
    {
        let wanted = String::from_str(name);
        let mut i: usize = 0;
        while i < self.templates.len()
            invariant
                i <= self.templates@.len(),
                wanted@ == name@,
                template_index(self.templates@.take(i as int), name@) is None,
            decreases self.templates@.len() - i,
        {
            proof {
                assert(self.templates@.take(i + 1).drop_last() =~= self.templates@.take(i as int));
                assert(self.templates@.take(i + 1).last() == self.templates@[i as int]);
            }
            if self.templates[i].name == wanted {
                proof {
                    lemma_template_found(self.templates@, i as int, name@);
                }
                return Some(i);
            }
            i = i + 1;
        }
        proof {
            assert(self.templates@.take(i as int) =~= self.templates@);
        }
        None
    }
}

/// A template that is the first of its name among those up to it is the
/// first of its name among all.
proof fn lemma_template_found(templates: Seq<Template>, i: int, name: Seq<char>)
    requires
        0 <= i < templates.len(),
        template_index(templates.take(i), name) is None,
        templates[i].name@ == name,
    ensures
        template_index(templates, name) == Some(i),
    decreases templates.len() - i,
{
    let upto = templates.take(i + 1);
    assert(upto.drop_last() =~= templates.take(i));
    assert(template_index(upto, name) == Some(i));
    lemma_template_kept(templates, i + 1, name);
}

/// What is found among the first templates is found among all.
proof fn lemma_template_kept(templates: Seq<Template>, n: int, name: Seq<char>)
    requires
        0 <= n <= templates.len(),
        template_index(templates.take(n), name) is Some,
    ensures
        template_index(templates, name) == template_index(templates.take(n), name),
    decreases templates.len() - n,
{
    if n < templates.len() {
        assert(templates.take(n + 1).drop_last() =~= templates.take(n));
        lemma_template_kept(templates, n + 1, name);
    } else {
        assert(templates.take(n) =~= templates);
    }
}

} // verus!
