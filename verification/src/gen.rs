//! The letter generator's raw material: a weighted pool of Cyrillic letters
//! (weights in hundredths of a percent of the frequency table) and the
//! random draws that pick from it.

use vstd::prelude::*;

verus! {

/// Whether a character is one of the 33 letters the generator deals.
pub open spec fn table_letter(c: char) -> bool {
    ||| c == 'А'
    ||| c == 'Б'
    ||| c == 'В'
    ||| c == 'Г'
    ||| c == 'Д'
    ||| c == 'Е'
    ||| c == 'Ё'
    ||| c == 'Ж'
    ||| c == 'З'
    ||| c == 'И'
    ||| c == 'Й'
    ||| c == 'К'
    ||| c == 'Л'
    ||| c == 'М'
    ||| c == 'Н'
    ||| c == 'О'
    ||| c == 'П'
    ||| c == 'Р'
    ||| c == 'С'
    ||| c == 'Т'
    ||| c == 'У'
    ||| c == 'Ф'
    ||| c == 'Х'
    ||| c == 'Ц'
    ||| c == 'Ч'
    ||| c == 'Ш'
    ||| c == 'Щ'
    ||| c == 'Ъ'
    ||| c == 'Ы'
    ||| c == 'Ь'
    ||| c == 'Э'
    ||| c == 'Ю'
    ||| c == 'Я'
}

/// How many entries the weighted pool holds.
pub const POOL_LEN: usize = 10001;

/// A run of one letter, repeated as often as its weight says.
pub open spec fn letter_run(c: char, n: int) -> Seq<char> {
    Seq::new(n as nat, |i: int| c)
}

/// Appends `n` copies of one letter to the pool.
fn push_letter(pool: &mut Vec<char>, c: char, n: usize)
    ensures
        final(pool)@ == old(pool)@ + letter_run(c, n as int),
        forall|k: int|
            0 <= k < final(pool)@.len() ==> final(pool)@[k] == (if k < old(pool)@.len() {
                old(pool)@[k]
            } else {
                c
            }),
{
    let mut i: usize = 0;
    while i < n
        invariant
            i <= n,
            pool@.len() == old(pool)@.len() + i,
            forall|k: int|
                0 <= k < pool@.len() ==> pool@[k] == (if k < old(pool)@.len() {
                    old(pool)@[k]
                } else {
                    c
                }),
        decreases n - i,
    {
        pool.push(c);
        i = i + 1;
    }
    proof {
        assert(pool@ =~= old(pool)@ + letter_run(c, n as int));
    }
}

/// The whole weighted pool: the 33 letter runs in table order.
pub open spec fn pool_spec() -> Seq<char> {
    letter_run('А', 801) + letter_run('Б', 159) + letter_run('В', 454) + letter_run('Г', 170)
        + letter_run('Д', 298) + letter_run('Е', 845) + letter_run('Ё', 4) + letter_run('Ж', 94)
        + letter_run('З', 165) + letter_run('И', 735) + letter_run('Й', 121) + letter_run('К', 349)
        + letter_run('Л', 440) + letter_run('М', 321) + letter_run('Н', 670) + letter_run(
        'О',
        1097,
    ) + letter_run('П', 281) + letter_run('Р', 473) + letter_run('С', 547) + letter_run('Т', 626)
        + letter_run('У', 262) + letter_run('Ф', 26) + letter_run('Х', 97) + letter_run('Ц', 48)
        + letter_run('Ч', 144) + letter_run('Ш', 73) + letter_run('Щ', 36) + letter_run('Ъ', 4)
        + letter_run('Ы', 190) + letter_run('Ь', 174) + letter_run('Э', 32) + letter_run('Ю', 64)
        + letter_run('Я', 201)
}

/// Builds the weighted pool: each letter repeated as often as its weight in
/// the frequency table says, so a uniform draw from the pool follows the
/// table's distribution.
pub fn letter_pool() -> (r: Vec<char>)
    ensures
        r@ == pool_spec(),
        r@.len() == POOL_LEN,
        forall|k: int| 0 <= k < r@.len() ==> table_letter(r@[k]),
{
    let mut pool: Vec<char> = Vec::new();
    push_letter(&mut pool, 'А', 801);
    push_letter(&mut pool, 'Б', 159);
    push_letter(&mut pool, 'В', 454);
    push_letter(&mut pool, 'Г', 170);
    push_letter(&mut pool, 'Д', 298);
    push_letter(&mut pool, 'Е', 845);
    push_letter(&mut pool, 'Ё', 4);
    push_letter(&mut pool, 'Ж', 94);
    push_letter(&mut pool, 'З', 165);
    push_letter(&mut pool, 'И', 735);
    push_letter(&mut pool, 'Й', 121);
    push_letter(&mut pool, 'К', 349);
    push_letter(&mut pool, 'Л', 440);
    push_letter(&mut pool, 'М', 321);
    push_letter(&mut pool, 'Н', 670);
    push_letter(&mut pool, 'О', 1097);
    push_letter(&mut pool, 'П', 281);
    push_letter(&mut pool, 'Р', 473);
    push_letter(&mut pool, 'С', 547);
    push_letter(&mut pool, 'Т', 626);
    push_letter(&mut pool, 'У', 262);
    push_letter(&mut pool, 'Ф', 26);
    push_letter(&mut pool, 'Х', 97);
    push_letter(&mut pool, 'Ц', 48);
    push_letter(&mut pool, 'Ч', 144);
    push_letter(&mut pool, 'Ш', 73);
    push_letter(&mut pool, 'Щ', 36);
    push_letter(&mut pool, 'Ъ', 4);
    push_letter(&mut pool, 'Ы', 190);
    push_letter(&mut pool, 'Ь', 174);
    push_letter(&mut pool, 'Э', 32);
    push_letter(&mut pool, 'Ю', 64);
    push_letter(&mut pool, 'Я', 201);
    proof {
        assert(pool@ =~= pool_spec());
    }
    pool
}

/// Relies on `rand::random_range`: a draw from the half-open range
/// `lo..hi`, which panics only on an empty range; the precondition rules
/// that out. Nothing more is assumed of the value than its bounds.
#[verifier::external_body]
pub(crate) fn rand_in_range(lo: i32, hi: i32) -> (r: i32)
    requires
        lo < hi,
    ensures
        lo <= r < hi,
{
    rand::random_range(lo..hi)
}

} // verus!
