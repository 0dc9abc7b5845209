use vstd::prelude::*;

verus! {

/// What a fragment computes.
#[derive(Clone, Copy, Debug, PartialEq, Eq, Structural)]
pub enum FragmentKind {
    /// One output that follows a live input cell.
    Variable,
    /// A structural placeholder with declared arity and no signal.
    Placeholder,
    /// A constant zero signal.
    Constant,
}

/// The shape of the audio sub-network that a node's operation selects.
#[derive(Clone, Copy, Debug, PartialEq, Eq, Structural)]
pub struct Fragment {
    pub kind: FragmentKind,
    pub inputs: usize,
    pub outputs: usize,
}

/// The fragment that every node starts with: no inputs, one output.
pub open spec fn initial_fragment() -> Fragment {
    Fragment { kind: FragmentKind::Placeholder, inputs: 0, outputs: 1 }
}

/// The fallback for a tag that the registry does not know.
pub open spec fn zero_fragment() -> Fragment {
    Fragment { kind: FragmentKind::Constant, inputs: 0, outputs: 1 }
}

/// The value of a decimal digit between '0' and '4', the output counts that
/// a placeholder tag may request.
pub open spec fn placeholder_digit(c: char) -> Option<usize> {
    if c == '0' {
        Some(0usize)
    } else if c == '1' {
        Some(1usize)
    } else if c == '2' {
        Some(2usize)
    } else if c == '3' {
        Some(3usize)
    } else if c == '4' {
        Some(4usize)
    } else {
        None
    }
}

pub open spec fn is_var_tag(tag: Seq<char>) -> bool {
    tag =~= seq!['V', 'a', 'r']
}

/// The number of outputs that a tag of the form `<digit>outs` requests.
pub open spec fn placeholder_outputs(tag: Seq<char>) -> Option<usize> {
    if tag.len() == 5 && tag.subrange(1, 5) =~= seq!['o', 'u', 't', 's'] {
        placeholder_digit(tag[0])
    } else {
        None
    }
}

/// The registry: the fragment that an operation tag selects.
pub open spec fn fragment_of(tag: Seq<char>) -> Fragment {
    if is_var_tag(tag) {
        Fragment { kind: FragmentKind::Variable, inputs: 0, outputs: 1 }
    } else if placeholder_outputs(tag) is Some {
        Fragment { kind: FragmentKind::Placeholder, inputs: 0, outputs: placeholder_outputs(tag)->0 }
    } else {
        zero_fragment()
    }
}

fn digit_of(c: char) -> (r: Option<usize>)
    ensures
        r == placeholder_digit(c),
{
    if c == '0' {
        Some(0)
    } else if c == '1' {
        Some(1)
    } else if c == '2' {
        Some(2)
    } else if c == '3' {
        Some(3)
    } else if c == '4' {
        Some(4)
    } else {
        None
    }
}

/// Looks an operation tag up in the registry.
pub fn fragment_for(tag: &str) -> (r: Fragment)
    ensures
        r == fragment_of(tag@),
{
    let n = tag.unicode_len();
    if n == 3 && tag.get_char(0) == 'V' && tag.get_char(1) == 'a' && tag.get_char(2) == 'r' {
        return Fragment { kind: FragmentKind::Variable, inputs: 0, outputs: 1 };
    }
    proof {
        if is_var_tag(tag@) {
            assert(tag@[0] == 'V' && tag@[1] == 'a' && tag@[2] == 'r');
        }
    }
    if n == 5 && tag.get_char(1) == 'o' && tag.get_char(2) == 'u' && tag.get_char(3) == 't'
        && tag.get_char(4) == 's' {
        assert(tag@.subrange(1, 5) =~= seq!['o', 'u', 't', 's']);
        match digit_of(tag.get_char(0)) {
            Some(d) => {
                return Fragment { kind: FragmentKind::Placeholder, inputs: 0, outputs: d };
            },
            None => {},
        }
    } else {
        proof {
            if tag@.len() == 5 && tag@.subrange(1, 5) =~= seq!['o', 'u', 't', 's'] {
                assert(tag@.subrange(1, 5)[0] == tag@[1]);
                assert(tag@.subrange(1, 5)[1] == tag@[2]);
                assert(tag@.subrange(1, 5)[2] == tag@[3]);
                assert(tag@.subrange(1, 5)[3] == tag@[4]);
            }
        }
    }
    Fragment { kind: FragmentKind::Constant, inputs: 0, outputs: 1 }
}

} // verus!
