use vstd::prelude::*;

verus! {

/// The kinds of command-line option, each with its current value.
#[derive(Clone, Debug)]
pub enum OptionType {
    StrOption(String),
    BoolOption(bool),
    UintOption(usize),
    ToggleOption(bool),
}

/// The key of an option: its bytes before the first `=`, less the dashes
/// among its first two bytes.
pub open spec fn key_upto(s: Seq<u8>, n: int) -> Seq<u8>
    decreases n,
{
    if n <= 0 {
        Seq::empty()
    } else {
        let k = key_upto(s, n - 1);
        if n - 1 < 2 && s[n - 1] == 45u8 {
            k
        } else {
            k.push(s[n - 1])
        }
    }
}

/// Index of the first `=`, or the length when there is none.
pub open spec fn first_eq(s: Seq<u8>) -> int {
    if s.contains(61u8) {
        choose|i: int| 0 <= i < s.len() && s[i] == 61u8 && forall|j: int| 0 <= j < i ==> s[j] != 61u8
    } else {
        s.len() as int
    }
}

/// Splits an option written `--key=value`, `-k=value`, `--key` or `-k`
/// into its key and, when one follows the first `=`, its value.
pub fn parseOption(opt: &[u8]) -> (r: (Vec<u8>, Option<Vec<u8>>))
    requires
        opt@.len() >= 2,
    ensures
        ({
            let e = first_eq(opt@);
            &&& r.0@ == key_upto(opt@, e)
            &&& e + 1 < opt@.len() ==> r.1 is Some && r.1->Some_0@ == opt@.subrange(e + 1, opt@.len() as int)
            &&& e + 1 >= opt@.len() ==> r.1 is None
        }),
{
    let n = opt.len();
    let mut key: Vec<u8> = Vec::new();
    let mut i: usize = 0;
    while i < n && opt[i] != 61u8
        invariant
            i <= n,
            n == opt@.len(),
            forall|j: int| 0 <= j < i ==> opt@[j] != 61u8,
            key@ == key_upto(opt@, i as int),
        decreases n - i,
    {
        if !(i < 2 && opt[i] == 45u8) {
            key.push(opt[i]);
        }
        i = i + 1;
    }
    proof {
        if i < n {
            assert(opt@.contains(61u8)) by {
                assert(opt@[i as int] == 61u8);
            }
            let e = first_eq(opt@);
            if e < i {
                assert(opt@[e] != 61u8);
            }
            if e > i {
                assert(opt@[i as int] != 61u8);
            }
            assert(e == i);
        } else {
            assert(!opt@.contains(61u8));
        }
    }
    let start = if i < n {
        i + 1
    } else {
        n
    };
    let mut val: Vec<u8> = Vec::new();
    let mut j: usize = start;
    while j < n
        invariant
            start <= j <= n,
            n == opt@.len(),
            val@ == opt@.subrange(start as int, j as int),
        decreases n - j,
    {
        val.push(opt[j]);
        proof {
            assert(val@ =~= opt@.subrange(start as int, j + 1));
        }
        j = j + 1;
    }
    if val.len() > 0 {
        (key, Some(val))
    } else {
        (key, None)
    }
}

} // verus!
