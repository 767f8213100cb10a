//! The debug library's `getinfo`: which fields its options ask for.
use vstd::prelude::*;

verus! {

/// A group of fields of the table `debug.getinfo` returns.
#[derive(Debug, Clone, Copy, PartialEq, Eq)]
pub enum InfoField {
    /// `S`: `source`, `short_src`, `linedefined`, `lastlinedefined`, `what`.
    Source,
    /// `l`: `currentline`.
    CurrentLine,
    /// `u`: `nups`, `nparams`, `isvararg`.
    Upvalues,
    /// `n`: `name`, `namewhat`.
    Name,
    /// `r`: `ftransfer`, `ntransfer`.
    Transfer,
    /// `t`: `istailcall`.
    TailCall,
    /// `L`: `activelines`.
    ActiveLines,
    /// `f`: `func`.
    Func,
}

/// Why `debug.getinfo` refused its options.
#[derive(Debug, Clone, Copy, PartialEq, Eq)]
pub enum GetInfoError {
    /// The options start with `>`, which only the interpreter may add.
    InvalidOption,
}

/// `invalid option '>'`
pub open spec fn invalid_option_text() -> Seq<u8> {
    seq![105u8, 110u8, 118u8, 97u8, 108u8, 105u8, 100u8, 32u8, 111u8, 112u8, 116u8, 105u8, 111u8, 110u8, 32u8, 39u8, 62u8, 39u8]
}

impl GetInfoError {
    /// The text of the argument error that `debug.getinfo` raises.
    pub fn message(&self) -> (r: Vec<u8>)
        ensures
            r@ == invalid_option_text(),
    {
        let r: Vec<u8> = vec![105u8, 110u8, 118u8, 97u8, 108u8, 105u8, 100u8, 32u8, 111u8, 112u8, 116u8, 105u8, 111u8, 110u8, 32u8, 39u8, 62u8, 39u8];
        proof {
            assert(r@ =~= invalid_option_text());
        }
        r
    }
}

/// The option letter of each field group, in the order the table is filled.
pub open spec fn field_letter(f: InfoField) -> u8 {
    match f {
        InfoField::Source => 83u8,
        InfoField::CurrentLine => 108u8,
        InfoField::Upvalues => 117u8,
        InfoField::Name => 110u8,
        InfoField::Transfer => 114u8,
        InfoField::TailCall => 116u8,
        InfoField::ActiveLines => 76u8,
        InfoField::Func => 102u8,
    }
}

pub open spec fn field_order() -> Seq<InfoField> {
    seq![
        InfoField::Source,
        InfoField::CurrentLine,
        InfoField::Upvalues,
        InfoField::Name,
        InfoField::Transfer,
        InfoField::TailCall,
        InfoField::ActiveLines,
        InfoField::Func,
    ]
}

/// The position of the first zero byte of `s` from `i` on (its length when
/// there is none).
pub open spec fn zero_at(s: Seq<u8>, i: int) -> int
    decreases s.len() - i,
{
    if i >= s.len() || i < 0 {
        s.len() as int
    } else if s[i] == 0 {
        i
    } else {
        zero_at(s, i + 1)
    }
}

/// The option text as C reads it: up to its first zero byte.
pub open spec fn c_text(s: Seq<u8>) -> Seq<u8> {
    s.take(zero_at(s, 0))
}

/// The field groups from the `k`-th on whose letter occurs in `opts`.
pub open spec fn fields_from(opts: Seq<u8>, k: int) -> Seq<InfoField>
    decreases 8 - k,
{
    if k < 0 || k >= 8 {
        Seq::empty()
    } else if c_text(opts).contains(field_letter(field_order()[k])) {
        seq![field_order()[k]] + fields_from(opts, k + 1)
    } else {
        fields_from(opts, k + 1)
    }
}

/// The field groups `debug.getinfo` fills for `options` (by default
/// `flnSrtu`), in the order it fills them; refused when the options start
/// with `>`.
pub open spec fn spec_info_fields(options: Option<Seq<u8>>) -> Result<Seq<InfoField>, GetInfoError> {
    let opts = match options {
        Some(o) => o,
        None => seq![102u8, 108u8, 110u8, 83u8, 114u8, 116u8, 117u8],
    };
    if opts.len() > 0 && opts[0] == 62u8 {
        Err(GetInfoError::InvalidOption)
    } else {
        Ok(fields_from(opts, 0))
    }
}

fn has_letter(opts: &[u8], c: u8) -> (r: bool)
    requires
        c != 0,
    ensures
        r == c_text(opts@).contains(c),
{
    let mut i: usize = 0;
    while i < opts.len()
        invariant
            i <= opts.len(),
            c != 0,
            zero_at(opts@, 0) == zero_at(opts@, i as int),
            forall|k: int| 0 <= k < i ==> opts@[k] != 0u8 && opts@[k] != c,
        decreases opts.len() - i,
    {
        if opts[i] == 0 {
            proof {
                assert(c_text(opts@) =~= opts@.take(i as int));
                if c_text(opts@).contains(c) {
                    let w = choose|w: int| 0 <= w < c_text(opts@).len() && c_text(opts@)[w] == c;
                    assert(opts@[w] == c);
                }
            }
            return false;
        }
        if opts[i] == c {
            proof {
                assert(zero_at(opts@, i as int) == zero_at(opts@, i + 1));
                lemma_zero_at_bound(opts@, i + 1);
                assert(c_text(opts@)[i as int] == c);
            }
            return true;
        }
        i = i + 1;
    }
    proof {
        assert(c_text(opts@) =~= opts@);
        if opts@.contains(c) {
            let w = choose|w: int| 0 <= w < opts@.len() && opts@[w] == c;
            assert(opts@[w] == c);
        }
    }
    false
}

proof fn lemma_zero_at_bound(s: Seq<u8>, i: int)
    requires
        0 <= i,
    ensures
        i <= zero_at(s, i) <= s.len() || (i > s.len() && zero_at(s, i) == s.len()),
    decreases s.len() - i,
{
    if i < s.len() && s[i] != 0 {
        lemma_zero_at_bound(s, i + 1);
    }
}

/// Reads the options of `debug.getinfo`: the field groups to fill, in order.
pub fn info_fields(options: Option<&[u8]>) -> (r: Result<Vec<InfoField>, GetInfoError>)
    ensures
        match spec_info_fields(
            match options {
                Some(o) => Some(o@),
                None => None,
            },
        ) {
            Ok(fs) => r is Ok && r->Ok_0@ == fs,
            Err(e) => r == Err::<Vec<InfoField>, GetInfoError>(e),
        },
{
    let default_opts: [u8; 7] = [102u8, 108u8, 110u8, 83u8, 114u8, 116u8, 117u8];
    let opts: &[u8] = match options {
        Some(o) => o,
        None => default_opts.as_slice(),
    };
    proof {
        let d = seq![102u8, 108u8, 110u8, 83u8, 114u8, 116u8, 117u8];
        if options is None {
            assert(opts@ =~= d);
        }
    }
    if opts.len() > 0 && opts[0] == 62u8 {
        return Err(GetInfoError::InvalidOption);
    }
    let order: [InfoField; 8] = [
        InfoField::Source,
        InfoField::CurrentLine,
        InfoField::Upvalues,
        InfoField::Name,
        InfoField::Transfer,
        InfoField::TailCall,
        InfoField::ActiveLines,
        InfoField::Func,
    ];
    let letters: [u8; 8] = [83u8, 108u8, 117u8, 110u8, 114u8, 116u8, 76u8, 102u8];
    let mut k: usize = 8;
    let mut fields: Vec<InfoField> = Vec::new();
    proof {
        assert forall|j: int| 0 <= j < 8 implies #[trigger] order@[j] == field_order()[j] && letters@[j] == field_letter(field_order()[j]) by {}
    }
    while k > 0
        invariant
            k <= 8,
            forall|j: int| 0 <= j < 8 ==> #[trigger] order@[j] == field_order()[j] && letters@[j] == field_letter(field_order()[j]),
            fields@ == fields_from(opts@, k as int),
        decreases k,
    {
        k = k - 1;
        proof {
            assert(order@[k as int] == field_order()[k as int]);
        }
        if has_letter(opts, letters[k]) {
            let ghost later = fields@;
            fields.insert(0, order[k]);
            proof {
                assert(fields@ =~= seq![field_order()[k as int]] + later);
            }
        }
    }
    Ok(fields)
}

} // verus!
