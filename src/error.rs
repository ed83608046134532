use vstd::prelude::*;

verus! {

/// Declares `std::io::Error`, carried opaquely by `MyError::Io`.
#[verifier::external_type_specification]
#[verifier::external_body]
pub struct ExIoError(std::io::Error);

/// Declares `std::num::ParseIntError`, carried opaquely by `MyError::Parse`.
#[verifier::external_type_specification]
#[verifier::external_body]
pub struct ExParseIntError(std::num::ParseIntError);

/// Declares `serde_json::Error`, carried opaquely by `MyError::Serialize`.
#[verifier::external_type_specification]
#[verifier::external_body]
pub struct ExJsonError(serde_json::Error);

/// The errors of the program around the relay.
#[derive(Debug)]
pub enum MyError {
    Io(std::io::Error),
    Parse(std::num::ParseIntError),
    Serialize(serde_json::Error),
    BigError(Box<BigError>),
    Custom(String),
}

/// An error that carries a sizeable payload.
#[derive(Debug)]
pub struct BigError {
    a: String,
    b: Vec<String>,
    c: [u8; 64],
    d: u64,
}

/// The decimal digits of `n`, most significant first, without leading zeros.
pub open spec fn decimal(n: nat) -> Seq<char>
    decreases n,
{
    if n < 10 {
        seq![digit_char(n)]
    } else {
        decimal(n / 10).push(digit_char(n % 10))
    }
}

/// The character of a decimal digit.
pub open spec fn digit_char(d: nat) -> char {
    if d == 0 { '0' }
    else if d == 1 { '1' }
    else if d == 2 { '2' }
    else if d == 3 { '3' }
    else if d == 4 { '4' }
    else if d == 5 { '5' }
    else if d == 6 { '6' }
    else if d == 7 { '7' }
    else if d == 8 { '8' }
    else { '9' }
}

/// The items, separated by `, `.
pub open spec fn joined_by_comma(items: Seq<Seq<char>>) -> Seq<char>
    decreases items.len(),
{
    if items.len() == 0 {
        Seq::empty()
    } else if items.len() == 1 {
        items[0]
    } else {
        joined_by_comma(items.drop_last()) + ", "@ + items.last()
    }
}

/// What `{:?}` writes for a string: the text quoted, special characters
/// escaped.
pub uninterp spec fn quoted_text(s: Seq<char>) -> Seq<char>;

/// The text of a `BigError`.
pub open spec fn big_error_text(
    a: Seq<char>,
    b: Seq<Seq<char>>,
    c: Seq<u8>,
    d: u64,
) -> Seq<char> {
    "BigError { a: "@ + a + ", b: ["@ + joined_by_comma(b.map_values(|s: Seq<char>| quoted_text(s)))
        + "], c: ["@ + joined_by_comma(c.map_values(|x: u8| decimal(x as nat))) + "], d: "@
        + decimal(d as nat) + " }"@
}

/// Relies on `<str as Debug>::fmt`: the quoted, escaped form of `s`, a
/// function of its characters alone.
#[verifier::external_body]
fn quoted(s: &str) -> (r: String)
    ensures
        r@ == quoted_text(s@),
{
    format!("{:?}", s)
}

fn digit_str(d: u8) -> (r: &'static str)
    requires
        d < 10,
    ensures
        r@ == seq![digit_char(d as nat)],
{
    proof {
        reveal_strlit("0");
        reveal_strlit("1");
        reveal_strlit("2");
        reveal_strlit("3");
        reveal_strlit("4");
        reveal_strlit("5");
        reveal_strlit("6");
        reveal_strlit("7");
        reveal_strlit("8");
        reveal_strlit("9");
    }
    if d == 0 { "0" }
    else if d == 1 { "1" }
    else if d == 2 { "2" }
    else if d == 3 { "3" }
    else if d == 4 { "4" }
    else if d == 5 { "5" }
    else if d == 6 { "6" }
    else if d == 7 { "7" }
    else if d == 8 { "8" }
    else { "9" }
}

/// The decimal text of `n`.
fn decimal_text(n: u64) -> (r: String)
    ensures
        r@ == decimal(n as nat),
    decreases n,
{
    let last = digit_str((n % 10) as u8);
    if n < 10 {
        String::from_str(last)
    } else {
        let mut s = decimal_text(n / 10);
        s.append(last);
        s
    }
}

impl BigError {
    pub fn new(a: String, b: Vec<String>, c: [u8; 64], d: u64) -> (r: BigError)
        ensures
            r.a() == a@,
            r.b() == b@.map_values(|s: String| s@),
            r.c() == c@,
            r.d() == d,
    {
        BigError { a, b, c, d }
    }

    pub closed spec fn a(&self) -> Seq<char> {
        self.a@
    }

    pub closed spec fn b(&self) -> Seq<Seq<char>> {
        self.b@.map_values(|s: String| s@)
    }

    pub closed spec fn c(&self) -> Seq<u8> {
        self.c@
    }

    pub closed spec fn d(&self) -> u64 {
        self.d
    }

    /// `BigError { a: <a>, b: <b as a list of quoted strings>, c: <c as a
    /// list of numbers>, d: <d> }`.
    pub fn render(&self) -> (r: String)
        ensures
            r@ == big_error_text(self.a(), self.b(), self.c(), self.d()),
    {
        let ghost bq = self.b().map_values(|t: Seq<char>| quoted_text(t));
        let ghost cd = self.c().map_values(|x: u8| decimal(x as nat));
        let mut s = String::from_str("BigError { a: ");
        s.append(self.a.as_str());
        s.append(", b: [");
        let ghost head = s@;
        assert(bq.take(0) =~= Seq::<Seq<char>>::empty());
        assert(s@ =~= head + joined_by_comma(bq.take(0)));
        let mut i: usize = 0;
        while i < self.b.len()
            invariant
                i <= self.b@.len(),
                bq.len() == self.b@.len(),
                bq == self.b().map_values(|t: Seq<char>| quoted_text(t)),
                s@ == head + joined_by_comma(bq.take(i as int)),
            decreases self.b@.len() - i,
        {
            let ghost prev = s@;
            assert(bq.take(i + 1).drop_last() =~= bq.take(i as int));
            assert(bq[i as int] == quoted_text(self.b@[i as int]@));
            if i > 0 {
                s.append(", ");
            }
            let q = quoted(self.b[i].as_str());
            s.append(q.as_str());
            proof {
                if i == 0 {
                    assert(s@ =~= head + joined_by_comma(bq.take(1)));
                } else {
                    assert(s@ =~= head + joined_by_comma(bq.take(i + 1)));
                }
            }
            i += 1;
        }
        assert(bq.take(i as int) =~= bq);
        s.append("], c: [");
        let ghost head2 = s@;
        assert(cd.take(0) =~= Seq::<Seq<char>>::empty());
        assert(s@ =~= head2 + joined_by_comma(cd.take(0)));
        let mut j: usize = 0;
        while j < 64
            invariant
                j <= 64,
                self.c@.len() == 64,
                cd.len() == 64,
                cd == self.c().map_values(|x: u8| decimal(x as nat)),
                s@ == head2 + joined_by_comma(cd.take(j as int)),
            decreases 64 - j,
        {
            assert(cd.take(j + 1).drop_last() =~= cd.take(j as int));
            assert(cd[j as int] == decimal(self.c@[j as int] as nat));
            if j > 0 {
                s.append(", ");
            }
            let t = decimal_text(self.c[j] as u64);
            s.append(t.as_str());
            proof {
                if j == 0 {
                    assert(s@ =~= head2 + joined_by_comma(cd.take(1)));
                } else {
                    assert(s@ =~= head2 + joined_by_comma(cd.take(j + 1)));
                }
            }
            j += 1;
        }
        assert(cd.take(64) =~= cd);
        s.append("], d: ");
        let t = decimal_text(self.d);
        s.append(t.as_str());
        s.append(" }");
        assert(s@ =~= big_error_text(self.a(), self.b(), self.c(), self.d()));
        s
    }
}

/// Always fails with the custom error `An error occurred`.
pub fn fail_with_error() -> (r: Result<(), MyError>)
    ensures
        r matches Err(MyError::Custom(m)) && m@ == "An error occurred"@,
{
    Err(MyError::Custom(String::from_str("An error occurred")))
}

} // verus!
