//! The request: a comma-separated list of device identifiers, which must not
//! be empty.
use vstd::prelude::*;

verus! {

/// Why a request was turned away before any record was fetched.
#[derive(Clone, Copy, Debug, PartialEq, Eq, Structural)]
pub enum RequestError {
    /// The identifier list is the empty string.
    EmptyIdentifiers,
}

impl RequestError {
    /// The text that the invocation reports under `"error"`.
    pub fn message(&self) -> (r: String)
        ensures
            r@ == "IMEI cannot be empty"@,
    {
        String::from_str("IMEI cannot be empty")
    }
}

/// The pieces of `s` between its commas, in order, as `str::split(',')`
/// yields them: one more piece than there are commas, empty ones included.
pub open spec fn split_commas(s: Seq<char>) -> Seq<Seq<char>>
    decreases s.len(),
{
    if s.len() == 0 {
        seq![Seq::empty()]
    } else {
        let pieces = split_commas(s.drop_last());
        if s.last() == ',' {
            pieces.push(Seq::empty())
        } else {
            pieces.update(pieces.len() - 1, pieces.last().push(s.last()))
        }
    }
}

pub open spec fn strings_view(v: Seq<String>) -> Seq<Seq<char>> {
    v.map_values(|x: String| x@)
}

/// Splits `s` at every comma.
pub fn split_identifiers(s: &str) -> (r: Vec<String>)
    ensures
        strings_view(r@) == split_commas(s@),
{
    let n = s.unicode_len();
    let mut pieces: Vec<String> = Vec::new();
    let mut start: usize = 0;
    let mut i: usize = 0;
    proof {
        assert(s@.subrange(0, 0) =~= Seq::<char>::empty());
    }
    while i < n
        invariant
            n == s@.len(),
            start <= i <= n,
            split_commas(s@.subrange(0, i as int)) == strings_view(pieces@).push(
                s@.subrange(start as int, i as int),
            ),
        decreases n - i,
    {
        let c = s.get_char(i);
        let ghost prev = s@.subrange(0, i as int);
        let ghost next = s@.subrange(0, i + 1);
        assert(next.drop_last() =~= prev);
        assert(next.last() == c);
        if c == ',' {
            let piece = s.substring_char(start, i).to_owned();
            let ghost before = pieces@;
            pieces.push(piece);
            proof {
                assert(strings_view(pieces@) =~= strings_view(before).push(piece@));
            }
            start = i + 1;
            assert(s@.subrange(start as int, i + 1) =~= Seq::<char>::empty());
        } else {
            assert(s@.subrange(start as int, i + 1) =~= s@.subrange(start as int, i as int).push(c));
        }
        i = i + 1;
    }
    let last = s.substring_char(start, n).to_owned();
    let ghost before = pieces@;
    pieces.push(last);
    proof {
        assert(s@.subrange(0, n as int) =~= s@);
        assert(strings_view(pieces@) =~= strings_view(before).push(last@));
    }
    pieces
}

/// Checks the identifier list and splits it into identifiers. Only a wholly
/// empty list is refused; empty pieces between commas are kept as
/// identifiers.
pub fn requested_identifiers(imeis: &str) -> (r: Result<Vec<String>, RequestError>)
    ensures
        r is Err <==> imeis@.len() == 0,
        r matches Err(e) ==> e == RequestError::EmptyIdentifiers,
        r matches Ok(v) ==> strings_view(v@) == split_commas(imeis@),
{
    if imeis.is_empty() {
        Err(RequestError::EmptyIdentifiers)
    } else {
        Ok(split_identifiers(imeis))
    }
}

} // verus!
