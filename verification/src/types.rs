//! The values the server stores and the commands it receives.
use std::collections::VecDeque;
use vstd::prelude::*;

verus! {

/// Where the server listens.
#[derive(Clone, Debug, PartialEq, Eq)]
pub struct BitobaseRunArguments {
    pub listen_url: String,
}

/// The address the server listens on when none is configured.
pub open spec fn default_listen_url() -> Seq<char> {
    "127.0.0.1:8080"@
}

/// The run arguments from the configured listen address, if one was given
/// (the `LISTEN_URL` environment variable), else the default address.
pub fn run_arguments_from(listen_url: Option<String>) -> (r: BitobaseRunArguments)
    ensures
        r.listen_url@ == match listen_url {
            Some(u) => u@,
            None => default_listen_url(),
        },
{
    let listen_url = match listen_url {
        Some(u) => u,
        None => "127.0.0.1:8080".to_owned(),
    };
    BitobaseRunArguments { listen_url }
}

/// A command: its name and its arguments.
#[derive(Clone, Debug, PartialEq, Eq)]
pub struct RedisCommand {
    pub command: String,
    pub args: Vec<String>,
}

/// The characters of each string, in order.
pub open spec fn strings_view(v: Seq<String>) -> Seq<Seq<char>> {
    v.map_values(|s: String| s@)
}

/// A stored value: a string or a list of strings.
#[derive(Clone, Debug, PartialEq, Eq)]
pub enum BitobaseObject {
    String(String),
    List(VecDeque<String>),
}

/// What a stored value holds, as mathematical sequences.
pub enum ObjectView {
    Str(Seq<char>),
    List(Seq<Seq<char>>),
}

impl View for BitobaseObject {
    type V = ObjectView;

    open spec fn view(&self) -> ObjectView {
        match self {
            BitobaseObject::String(s) => ObjectView::Str(s@),
            BitobaseObject::List(l) => ObjectView::List(strings_view(l@)),
        }
    }
}

/// The items joined into one sequence, with `sep` between two neighbours (`[String]::join`).
pub open spec fn join_spec(items: Seq<Seq<char>>, sep: Seq<char>) -> Seq<char>
    decreases items.len(),
{
    if items.len() == 0 {
        seq![]
    } else if items.len() == 1 {
        items[0]
    } else {
        join_spec(items.drop_last(), sep) + sep + items.last()
    }
}

/// How a stored value is shown: a string in double quotes, a list as its
/// items between square brackets, separated by commas.
pub open spec fn object_text(o: ObjectView) -> Seq<char> {
    match o {
        ObjectView::Str(s) => seq!['"'] + s + seq!['"'],
        ObjectView::List(l) => seq!['['] + join_spec(l, seq![',']) + seq![']'],
    }
}

impl BitobaseObject {
    /// The text that shows this value.
    pub fn to_string(&self) -> (r: String)
        ensures
            r@ == object_text(self@),
    {
        proof {
            reveal_strlit("\"");
            reveal_strlit("[");
            reveal_strlit("]");
            reveal_strlit(",");
        }
        match self {
            BitobaseObject::String(s) => {
                let mut r = "\"".to_owned();
                r.append(s.as_str());
                r.append("\"");
                r
            },
            BitobaseObject::List(l) => {
                let ghost items = strings_view(l@);
                let mut r = "[".to_owned();
                let mut i: usize = 0;
                while i < l.len()
                    invariant
                        i <= l@.len(),
                        items == strings_view(l@),
                        r@ == seq!['['] + join_spec(items.take(i as int), seq![',']),
                    decreases l@.len() - i,
                {
                    let ghost before = r@;
                    if i > 0 {
                        r.append(",");
                        proof {
                            reveal_strlit(",");
                        }
                        assert(","@ =~= seq![',']);
                    }
                    let ghost mid = r@;
                    let item: &String = &l[i];
                    assert(item@ == items[i as int]);
                    r.append(item.as_str());
                    assert(r@ == mid + items[i as int]);
                    i = i + 1;
                    assert(items.take(i as int).drop_last() == items.take((i - 1) as int));
                    assert(items.take(i as int).last() == l@[i - 1]@);
                    if i == 1 {
                        assert(join_spec(items.take(0), seq![',']) == Seq::<char>::empty());
                        assert(join_spec(items.take(1), seq![',']) == items.take(1)[0]);
                        assert(r@ =~= before + items.take(1)[0]);
                    } else {
                        assert(r@ =~= before + seq![','] + items.take(i as int).last());
                        assert(seq!['['] + join_spec(items.take(i as int), seq![',']) =~= before
                            + seq![','] + items.take(i as int).last());
                    }
                    assert(r@ == seq!['['] + join_spec(items.take(i as int), seq![',']));
                }
                assert(items.take(l@.len() as int) == items);
                r.append("]");
                r
            },
        }
    }
}

} // verus!
