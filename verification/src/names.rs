use vstd::prelude::*;
use vstd::string::StringExecFns;

use crate::text::{joined, str_equal};

verus! {

/// The algorithms that the library offers.
#[derive(Clone, Copy, Debug, PartialEq, Eq, Structural)]
pub enum Algorithm {
    Lapjv,
    Hungarian,
    Lapmod,
    Subgradient,
    Auction,
    Dantzig,
}

/// The names of the algorithms that the library offers, in the order in which
/// they are listed to users.
pub open spec fn algorithm_names() -> Seq<Seq<char>> {
    seq!["lapjv"@, "hungarian"@, "lapmod"@, "subgradient"@, "auction"@, "dantzig"@]
}

/// The algorithm that `name` stands for, if any.
pub open spec fn algorithm_named(name: Seq<char>) -> Option<Algorithm> {
    if name == "lapjv"@ {
        Some(Algorithm::Lapjv)
    } else if name == "hungarian"@ {
        Some(Algorithm::Hungarian)
    } else if name == "lapmod"@ {
        Some(Algorithm::Lapmod)
    } else if name == "subgradient"@ {
        Some(Algorithm::Subgradient)
    } else if name == "auction"@ {
        Some(Algorithm::Auction)
    } else if name == "dantzig"@ {
        Some(Algorithm::Dantzig)
    } else {
        None
    }
}

/// The message for a request of an algorithm that does not exist.
pub open spec fn unknown_algorithm_message(name: Seq<char>) -> Seq<char> {
    "Unknown algorithm '"@ + name + "'. Supported: "@ + joined(algorithm_names(), ", "@)
}

/// The list of supported algorithm names.
pub fn supported_algorithms() -> (names: &'static [&'static str])
    ensures
        names@.len() == 6,
        forall|k: int| 0 <= k < 6 ==> #[trigger] names@[k]@ == algorithm_names()[k],
{
    let names: &'static [&'static str] = &[
        "lapjv",
        "hungarian",
        "lapmod",
        "subgradient",
        "auction",
        "dantzig",
    ];
    names
}

/// The supported algorithm names joined with `", "`.
fn supported_list() -> (s: String)
    ensures
        s@ == joined(algorithm_names(), ", "@),
{
    let names = supported_algorithms();
    let mut s = String::from_str(names[0]);
    let mut k: usize = 1;
    while k < names.len()
        invariant
            names@.len() == 6,
            forall|q: int| 0 <= q < 6 ==> #[trigger] names@[q]@ == algorithm_names()[q],
            1 <= k <= 6,
            s@ == joined(algorithm_names().subrange(0, k as int), ", "@),
        decreases 6 - k,
    {
        s.append(", ");
        s.append(names[k]);
        proof {
            let parts = algorithm_names().subrange(0, k + 1);
            assert(parts.drop_last() == algorithm_names().subrange(0, k as int));
        }
        k += 1;
    }
    assert(algorithm_names().subrange(0, 6) == algorithm_names());
    s
}

/// Chooses the algorithm named `name`; an unknown name gives the message that
/// lists the supported ones.
pub fn select_algorithm(name: &str) -> (res: Result<Algorithm, String>)
    ensures
        algorithm_named(name@) matches Some(a) ==> res == Ok::<Algorithm, String>(a),
        algorithm_named(name@) is None ==> (res matches Err(msg) && msg@
            == unknown_algorithm_message(name@)),
{
    if str_equal(name, "lapjv") {
        return Ok(Algorithm::Lapjv);
    }
    if str_equal(name, "hungarian") {
        return Ok(Algorithm::Hungarian);
    }
    if str_equal(name, "lapmod") {
        return Ok(Algorithm::Lapmod);
    }
    if str_equal(name, "subgradient") {
        return Ok(Algorithm::Subgradient);
    }
    if str_equal(name, "auction") {
        return Ok(Algorithm::Auction);
    }
    if str_equal(name, "dantzig") {
        return Ok(Algorithm::Dantzig);
    }
    let mut msg = String::from_str("Unknown algorithm '");
    msg.append(name);
    msg.append("'. Supported: ");
    let list = supported_list();
    msg.append(list.as_str());
    Err(msg)
}

/// A name selects an algorithm exactly when it is one of the listed names.
pub proof fn lemma_selectable_iff_listed(name: Seq<char>)
    ensures
        algorithm_named(name) is Some <==> algorithm_names().contains(name),
{
    if algorithm_names().contains(name) {
        let k = choose|k: int| 0 <= k < algorithm_names().len() && algorithm_names()[k] == name;
        assert(0 <= k < 6);
    }
    if algorithm_named(name) is Some {
        if name == "lapjv"@ {
            assert(algorithm_names()[0] == name);
        } else if name == "hungarian"@ {
            assert(algorithm_names()[1] == name);
        } else if name == "lapmod"@ {
            assert(algorithm_names()[2] == name);
        } else if name == "subgradient"@ {
            assert(algorithm_names()[3] == name);
        } else if name == "auction"@ {
            assert(algorithm_names()[4] == name);
        } else {
            assert(algorithm_names()[5] == name);
        }
    }
}

} // verus!
