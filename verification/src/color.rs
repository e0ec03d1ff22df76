use vstd::prelude::*;
use vstd::string::StringExecFns;

verus! {

/// A colour packed into 32 bits: red in the highest byte, then green, blue
/// and alpha
#[derive(Debug, Clone, Copy, PartialEq, Eq, Hash, Structural)]
pub struct Rgba(u32);

/// How much a colour covers, by its alpha channel
#[derive(Debug, Clone, Copy, PartialEq, Eq, Hash, Structural)]
pub enum Alpha {
    /// Alpha is zero: nothing is drawn
    Clear,
    /// Alpha lies between zero and one: what is behind shows through
    Partial,
    /// Alpha is one: what is behind is hidden
    Solid,
}

/// A colour as the pipeline carries it: its number in the caller's palette,
/// its packed form and the class of its alpha channel
#[derive(Debug, Clone, Copy, PartialEq, Eq, Hash)]
pub struct Paint {
    pub id: u32,
    pub rgba: Rgba,
    pub alpha: Alpha,
}

/// The digit of `n` in base 16, in lower case
pub open spec fn hex_char(n: int) -> char {
    if n == 0 {
        '0'
    } else if n == 1 {
        '1'
    } else if n == 2 {
        '2'
    } else if n == 3 {
        '3'
    } else if n == 4 {
        '4'
    } else if n == 5 {
        '5'
    } else if n == 6 {
        '6'
    } else if n == 7 {
        '7'
    } else if n == 8 {
        '8'
    } else if n == 9 {
        '9'
    } else if n == 10 {
        'a'
    } else if n == 11 {
        'b'
    } else if n == 12 {
        'c'
    } else if n == 13 {
        'd'
    } else if n == 14 {
        'e'
    } else {
        'f'
    }
}

/// The two digits of a byte in base 16
pub open spec fn hex_byte(b: int) -> Seq<char> {
    seq![hex_char(b / 16), hex_char(b % 16)]
}

fn hex_str(n: u8) -> (r: &'static str)
    requires
        n < 16,
    ensures
        r@ == seq![hex_char(n as int)],
{
    proof {
        reveal_strlit("0");
        reveal_strlit("1");
        reveal_strlit("2");
        reveal_strlit("3");
        reveal_strlit("4");
        reveal_strlit("5");
        reveal_strlit("6");
        reveal_strlit("7");
        reveal_strlit("8");
        reveal_strlit("9");
        reveal_strlit("a");
        reveal_strlit("b");
        reveal_strlit("c");
        reveal_strlit("d");
        reveal_strlit("e");
        reveal_strlit("f");
    }
    let r = match n {
        0 => "0",
        1 => "1",
        2 => "2",
        3 => "3",
        4 => "4",
        5 => "5",
        6 => "6",
        7 => "7",
        8 => "8",
        9 => "9",
        10 => "a",
        11 => "b",
        12 => "c",
        13 => "d",
        14 => "e",
        _ => "f",
    };
    assert(r@ =~= seq![hex_char(n as int)]);
    r
}

fn push_hex_byte(s: &mut String, b: u8)
    ensures
        final(s)@ == old(s)@ + hex_byte(b as int),
{
    s.append(hex_str(b / 16));
    s.append(hex_str(b % 16));
    assert(s@ =~= old(s)@ + hex_byte(b as int));
}

impl Rgba {
    /// The packed value
    pub closed spec fn value(self) -> u32 {
        self.0
    }

    /// The red channel
    pub open spec fn red(self) -> int {
        self.value() as int / 0x100_0000
    }

    /// The green channel
    pub open spec fn green(self) -> int {
        (self.value() as int / 0x1_0000) % 0x100
    }

    /// The blue channel
    pub open spec fn blue(self) -> int {
        (self.value() as int / 0x100) % 0x100
    }

    /// The alpha channel
    pub open spec fn alpha(self) -> int {
        self.value() as int % 0x100
    }

    /// How the colour is written in a document: `#00000000` where alpha is
    /// zero, `#rrggbb` where alpha is 255, else `#rrggbbaa`, in lower case
    pub open spec fn hex(self) -> Seq<char> {
        if self.alpha() == 0 {
            seq!['#', '0', '0', '0', '0', '0', '0', '0', '0']
        } else if self.alpha() == 255 {
            seq!['#'] + hex_byte(self.red()) + hex_byte(self.green()) + hex_byte(self.blue())
        } else {
            seq!['#'] + hex_byte(self.red()) + hex_byte(self.green()) + hex_byte(self.blue())
                + hex_byte(self.alpha())
        }
    }

    /// The colour with the given packed value
    pub closed spec fn spec_new(value: u32) -> Rgba {
        Rgba(value)
    }

    /// The colour with the given packed value
    #[verifier::when_used_as_spec(spec_new)]
    pub fn new(value: u32) -> (r: Rgba)
        ensures
            r == Rgba::spec_new(value),
            r.value() == value,
    {
        Rgba(value)
    }

    /// The colour with the given channels
    pub fn from_bytes(bytes: [u8; 4]) -> (r: Rgba)
        ensures
            r.red() == bytes[0],
            r.green() == bytes[1],
            r.blue() == bytes[2],
            r.alpha() == bytes[3],
    {
        let r = bytes[0] as u32;
        let g = bytes[1] as u32;
        let b = bytes[2] as u32;
        let a = bytes[3] as u32;
        let value: u32 = r * 0x100_0000 + g * 0x1_0000 + b * 0x100 + a;
        assert(value / 0x100_0000 == r && (value / 0x1_0000) % 0x100 == g && (value / 0x100) % 0x100
            == b && value % 0x100 == a) by (bit_vector)
            requires
                r < 0x100,
                g < 0x100,
                b < 0x100,
                a < 0x100,
                value == r * 0x100_0000 + g * 0x1_0000 + b * 0x100 + a,
        ;
        Rgba(value)
    }

    /// The packed value
    pub fn to_u32(&self) -> (r: u32)
        ensures
            r == self.value(),
    {
        self.0
    }

    /// The four channels: red, green, blue, alpha
    pub fn to_bytes(&self) -> (r: [u8; 4])
        ensures
            r[0] == self.red(),
            r[1] == self.green(),
            r[2] == self.blue(),
            r[3] == self.alpha(),
    {
        [
            (self.0 / 0x100_0000) as u8,
            ((self.0 / 0x1_0000) % 0x100) as u8,
            ((self.0 / 0x100) % 0x100) as u8,
            (self.0 % 0x100) as u8,
        ]
    }

    /// Whether the alpha channel is zero
    pub fn is_transparent(&self) -> (r: bool)
        ensures
            r <==> self.alpha() == 0,
    {
        let v = self.0;
        assert(v & 0xff == v % 0x100) by (bit_vector);
        self.0 & 0xff == 0
    }

    /// The colour as it is written in a document
    pub fn to_string(&self) -> (r: String)
        ensures
            r@ == self.hex(),
    {
        let bytes = self.to_bytes();
        if bytes[3] == 0 {
            proof {
                reveal_strlit("#00000000");
            }
            let r = String::from_str("#00000000");
            assert(r@ =~= self.hex());
            return r;
        }
        proof {
            reveal_strlit("#");
        }
        let mut s = String::from_str("#");
        assert(s@ =~= seq!['#']);
        push_hex_byte(&mut s, bytes[0]);
        push_hex_byte(&mut s, bytes[1]);
        push_hex_byte(&mut s, bytes[2]);
        if bytes[3] != 255 {
            push_hex_byte(&mut s, bytes[3]);
        }
        s
    }
}

impl Paint {
    /// The paint with the given number, packed form and class of alpha
    pub fn new(id: u32, rgba: Rgba, alpha: Alpha) -> (r: Paint)
        ensures
            r.id == id,
            r.rgba == rgba,
            r.alpha == alpha,
    {
        Paint { id, rgba, alpha }
    }
}

} // verus!
