//! The candidate data model: a 32-byte window flagged as plausible key
//! material, its classification tag, and its uppercase-hex rendering.

use vstd::prelude::*;

verus! {

use vstd::string::StringExecFns;

/// Classification tag: which detection rule flagged the window.
#[derive(Clone, Copy, Debug, PartialEq, Eq, Structural)]
pub enum KeyType {
    Type1,
    Type2,
    Type3,
    Type4,
}

impl KeyType {
    /// The tag's display name.
    pub open spec fn name_spec(&self) -> Seq<char> {
        match self {
            KeyType::Type1 => "Type1"@,
            KeyType::Type2 => "Type2"@,
            KeyType::Type3 => "Type3"@,
            KeyType::Type4 => "Type4"@,
        }
    }

    /// The tag's display name.
    pub fn name(&self) -> (r: &'static str)
        ensures
            r@ == self.name_spec(),
    {
        match self {
            KeyType::Type1 => "Type1",
            KeyType::Type2 => "Type2",
            KeyType::Type3 => "Type3",
            KeyType::Type4 => "Type4",
        }
    }
}

/// The uppercase hex digit for a value below 16.
pub open spec fn hex_digit(n: int) -> char {
    if n == 0 {
        '0'
    } else if n == 1 {
        '1'
    } else if n == 2 {
        '2'
    } else if n == 3 {
        '3'
    } else if n == 4 {
        '4'
    } else if n == 5 {
        '5'
    } else if n == 6 {
        '6'
    } else if n == 7 {
        '7'
    } else if n == 8 {
        '8'
    } else if n == 9 {
        '9'
    } else if n == 10 {
        'A'
    } else if n == 11 {
        'B'
    } else if n == 12 {
        'C'
    } else if n == 13 {
        'D'
    } else if n == 14 {
        'E'
    } else {
        'F'
    }
}

/// Uppercase hex rendering of a byte sequence: two digits per byte, no
/// separators.
pub open spec fn hex_of(s: Seq<u8>) -> Seq<char>
    decreases s.len(),
{
    if s.len() == 0 {
        Seq::empty()
    } else {
        hex_of(s.drop_last()) + seq![
            hex_digit(s.last() as int / 16),
            hex_digit(s.last() as int % 16),
        ]
    }
}

fn hex_digit_str(n: u8) -> (r: &'static str)
    requires
        n < 16,
    ensures
        r@ == seq![hex_digit(n as int)],
{
    proof {
        reveal_strlit("0");
        reveal_strlit("1");
        reveal_strlit("2");
        reveal_strlit("3");
        reveal_strlit("4");
        reveal_strlit("5");
        reveal_strlit("6");
        reveal_strlit("7");
        reveal_strlit("8");
        reveal_strlit("9");
        reveal_strlit("A");
        reveal_strlit("B");
        reveal_strlit("C");
        reveal_strlit("D");
        reveal_strlit("E");
        reveal_strlit("F");
        assert("0"@ =~= seq![hex_digit(0)]);
        assert("1"@ =~= seq![hex_digit(1)]);
        assert("2"@ =~= seq![hex_digit(2)]);
        assert("3"@ =~= seq![hex_digit(3)]);
        assert("4"@ =~= seq![hex_digit(4)]);
        assert("5"@ =~= seq![hex_digit(5)]);
        assert("6"@ =~= seq![hex_digit(6)]);
        assert("7"@ =~= seq![hex_digit(7)]);
        assert("8"@ =~= seq![hex_digit(8)]);
        assert("9"@ =~= seq![hex_digit(9)]);
        assert("A"@ =~= seq![hex_digit(10)]);
        assert("B"@ =~= seq![hex_digit(11)]);
        assert("C"@ =~= seq![hex_digit(12)]);
        assert("D"@ =~= seq![hex_digit(13)]);
        assert("E"@ =~= seq![hex_digit(14)]);
        assert("F"@ =~= seq![hex_digit(15)]);
    }
    match n {
        0 => "0",
        1 => "1",
        2 => "2",
        3 => "3",
        4 => "4",
        5 => "5",
        6 => "6",
        7 => "7",
        8 => "8",
        9 => "9",
        10 => "A",
        11 => "B",
        12 => "C",
        13 => "D",
        14 => "E",
        _ => "F",
    }
}

/// Renders `data` as uppercase hex, two digits per byte, no separators.
pub fn to_hex_upper(data: &[u8]) -> (r: String)
    ensures
        r@ == hex_of(data@),
{
    let mut r = String::new();
    let mut i: usize = 0;
    proof {
        assert(data@.take(0) =~= Seq::<u8>::empty());
        assert(r@ =~= hex_of(data@.take(0)));
    }
    while i < data.len()
        invariant
            i <= data@.len(),
            r@ == hex_of(data@.take(i as int)),
        decreases data@.len() - i,
    {
        let b: u8 = data[i];
        let hi: u8 = b / 16;
        let lo: u8 = b % 16;
        r.append(hex_digit_str(hi));
        r.append(hex_digit_str(lo));
        proof {
            let pre = data@.take(i as int);
            let cur = data@.take(i as int + 1);
            assert(cur.drop_last() =~= pre);
            assert(cur.last() == b);
            assert(r@ =~= hex_of(pre) + seq![
                hex_digit(b as int / 16),
                hex_digit(b as int % 16),
            ]);
        }
        i = i + 1;
    }
    proof {
        assert(data@.take(data@.len() as int) =~= data@);
    }
    r
}

/// A discovered window of interest: 32 bytes copied out of the buffer, the
/// rule tag that flagged them, the window's fixed-point entropy, and the
/// uppercase-hex rendering of the bytes.
#[derive(Debug, Clone, PartialEq)]
pub struct AesKeyCandidate {
    pub offset: usize,
    pub key: Vec<u8>,
    pub key_type: KeyType,
    pub entropy: u64,
    pub hex_string: String,
}

/// The mathematical image of a candidate.
pub ghost struct CandidateModel {
    pub offset: int,
    pub key: Seq<u8>,
    pub key_type: KeyType,
    pub entropy: int,
    pub hex: Seq<char>,
}

impl View for AesKeyCandidate {
    type V = CandidateModel;

    open spec fn view(&self) -> CandidateModel {
        CandidateModel {
            offset: self.offset as int,
            key: self.key@,
            key_type: self.key_type,
            entropy: self.entropy as int,
            hex: self.hex_string@,
        }
    }
}

/// The element-wise view of a sequence of candidates.
pub open spec fn views_of(s: Seq<AesKeyCandidate>) -> Seq<CandidateModel> {
    Seq::new(s.len(), |i: int| s[i]@)
}

} // verus!
