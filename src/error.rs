use vstd::prelude::*;

verus! {

/// Why an input was refused. Every check runs before any computation, so an
/// error means that nothing was computed.
#[derive(Debug, Clone)]
pub enum BmsspError {
    /// The CSR arrays break one of the graph's structural rules.
    InvalidGraph(String),
    /// The weight array does not fit the graph.
    InvalidWeights(String),
    /// The source vertex is not a vertex of the graph.
    InvalidSource { source: usize, num_vertices: usize },
    /// The enabled mask does not hold one flag per edge.
    InvalidEnabledMask { expected: usize, actual: usize },
    /// A weight is not a finite number.
    NonFiniteWeight,
    /// A weight is below zero.
    NegativeWeight,
}

/// The character of decimal digit `d`.
pub open spec fn digit_char(d: nat) -> char {
    if d == 0 {
        '0'
    } else if d == 1 {
        '1'
    } else if d == 2 {
        '2'
    } else if d == 3 {
        '3'
    } else if d == 4 {
        '4'
    } else if d == 5 {
        '5'
    } else if d == 6 {
        '6'
    } else if d == 7 {
        '7'
    } else if d == 8 {
        '8'
    } else {
        '9'
    }
}

/// The decimal numeral of `x`: its digits, most significant first, without
/// leading zeros.
pub open spec fn decimal(x: nat) -> Seq<char>
    decreases x,
{
    if x < 10 {
        seq![digit_char(x)]
    } else {
        decimal(x / 10) + seq![digit_char(x % 10)]
    }
}

fn digit_text(d: usize) -> (r: &'static str)
    requires
        d < 10,
    ensures
        r@ == seq![digit_char(d as nat)],
{
    if d == 0 {
        proof {
            reveal_strlit("0");
        }
        "0"
    } else if d == 1 {
        proof {
            reveal_strlit("1");
        }
        "1"
    } else if d == 2 {
        proof {
            reveal_strlit("2");
        }
        "2"
    } else if d == 3 {
        proof {
            reveal_strlit("3");
        }
        "3"
    } else if d == 4 {
        proof {
            reveal_strlit("4");
        }
        "4"
    } else if d == 5 {
        proof {
            reveal_strlit("5");
        }
        "5"
    } else if d == 6 {
        proof {
            reveal_strlit("6");
        }
        "6"
    } else if d == 7 {
        proof {
            reveal_strlit("7");
        }
        "7"
    } else if d == 8 {
        proof {
            reveal_strlit("8");
        }
        "8"
    } else {
        proof {
            reveal_strlit("9");
        }
        "9"
    }
}

/// The decimal numeral of `x`.
pub fn decimal_text(x: usize) -> (r: String)
    ensures
        r@ == decimal(x as nat),
    decreases x,
{
    if x < 10 {
        String::from_str(digit_text(x))
    } else {
        let mut s = decimal_text(x / 10);
        s.append(digit_text(x % 10));
        s
    }
}

impl BmsspError {
    /// A human-readable description of the error.
    pub fn message(&self) -> (r: String)
        ensures
            self matches BmsspError::InvalidGraph(m) ==> r@ == "Invalid graph: "@ + m@,
            self matches BmsspError::InvalidWeights(m) ==> r@ == "Invalid weights: "@ + m@,
            self matches BmsspError::InvalidSource { source, num_vertices } ==> r@ == "Invalid source vertex "@
                + decimal(source as nat) + " (graph has "@ + decimal(num_vertices as nat) + " vertices)"@,
            self matches BmsspError::InvalidEnabledMask { expected, actual } ==> r@
                == "Invalid enabled mask length: expected "@ + decimal(expected as nat) + ", got "@ + decimal(
                actual as nat,
            ),
            self is NonFiniteWeight ==> r@ == "Non-finite weight encountered"@,
            self is NegativeWeight ==> r@ == "Negative weight encountered"@,
    {
        match self {
            BmsspError::InvalidGraph(msg) => {
                let mut s = String::from_str("Invalid graph: ");
                s.append(msg.as_str());
                s
            },
            BmsspError::InvalidWeights(msg) => {
                let mut s = String::from_str("Invalid weights: ");
                s.append(msg.as_str());
                s
            },
            BmsspError::InvalidSource { source, num_vertices } => {
                let mut s = String::from_str("Invalid source vertex ");
                s.append(decimal_text(*source).as_str());
                s.append(" (graph has ");
                s.append(decimal_text(*num_vertices).as_str());
                s.append(" vertices)");
                s
            },
            BmsspError::InvalidEnabledMask { expected, actual } => {
                let mut s = String::from_str("Invalid enabled mask length: expected ");
                s.append(decimal_text(*expected).as_str());
                s.append(", got ");
                s.append(decimal_text(*actual).as_str());
                s
            },
            BmsspError::NonFiniteWeight => String::from_str("Non-finite weight encountered"),
            BmsspError::NegativeWeight => String::from_str("Negative weight encountered"),
        }
    }
}

} // verus!
