//! Repackaging SVZ tone banks: pick tones out of one, or join two together.
//!
//! An SVZ is the tone-level counterpart to a scene export. It has no `PRFa` — just an engine area
//! (`PATa` ZEN-Core tones, or `RHYa` drum kits with their paired `INSa` instrument sets), a `DIFa`
//! checksum, and, when a tone plays user samples, the sample slots in `USPa` and their audio in
//! `USDa`. Unlike a scene export, an SVZ carries sample audio: when tones are selected here, the
//! samples they play travel and are renumbered with them.
//!
//! Only a `PATa` tone says which samples it plays. For every other engine (a drum kit keeps its
//! waves in the paired `INSa`, where the "user sample" group value has never been confirmed) a
//! bank carries every sample the source holds, at its original slot number: selecting none would
//! strip a sampled kit's audio, and renumbering would break references nothing can find.

pub mod join;
pub mod layout;
pub mod load;
pub mod pick;
pub mod selfjoin;

use vstd::prelude::*;

use self::join::{join, join_outcome};
use self::load::{tone_bank, ToneBank, ToneBankView};
use self::pick::{pick, pick_outcome};
use crate::address::{area_at, is_row, lemma_row_bytes, row_tag_bytes, AreaSpec};
use crate::container::svd::{envelope_error, parses_as};
use crate::container::{Raw, Svd};
use crate::{Error, Result};

verus! {

/// The first of `indexes` that is not a tone of a bank with `count` tones (numbered from 0).
pub open spec fn first_bad(indexes: Seq<usize>, count: nat) -> Option<usize>
    decreases indexes.len(),
{
    if indexes.len() == 0 {
        None
    } else {
        match first_bad(indexes.drop_last(), count) {
            Some(i) => Some(i),
            None => if indexes.last() >= count {
                Some(indexes.last())
            } else {
                None
            },
        }
    }
}

/// The engine area a tone bank is built around, for callers reporting on it.
pub fn engine(raw: &Raw) -> (r: Result<AreaSpec>)
    ensures
        envelope_error(raw@) is Some ==> r is Err,
        forall|svd: Svd| #[trigger]
            parses_as(svd, raw@) ==> match tone_bank(raw@, svd.areas@) {
                Ok(b) => r matches Ok(a) && is_row(a, b.row),
                Err(e) => r == Err::<AreaSpec, Error>(e),
            },
{
    let bank = ToneBank::parse(raw)?;
    Ok(area_at(bank.row))
}

proof fn lemma_first_bad_prefix(indexes: Seq<usize>, count: nat, k: int)
    requires
        0 <= k <= indexes.len(),
        first_bad(indexes.subrange(0, k), count) is Some,
    ensures
        first_bad(indexes, count) == first_bad(indexes.subrange(0, k), count),
    decreases indexes.len() - k,
{
    if k < indexes.len() {
        assert(indexes.drop_last().subrange(0, k) =~= indexes.subrange(0, k));
        lemma_first_bad_prefix(indexes.drop_last(), count, k);
    } else {
        assert(indexes.subrange(0, k) =~= indexes);
    }
}

/// Build a tone bank holding only the tones `indexes` (numbered from 0, as the tone list prints
/// them), in the order given, with the samples they play.
pub fn extract_tones(raw: &Raw, indexes: &[usize]) -> (r: Result<Raw>)
    ensures
        indexes@.len() == 0 ==> r == Err::<Raw, Error>(Error::NoTones),
        indexes@.len() > 0 && envelope_error(raw@) is Some ==> r is Err,
        indexes@.len() > 0 ==> forall|svd: Svd| #[trigger]
            parses_as(svd, raw@) ==> match tone_bank(raw@, svd.areas@) {
                Err(e) => r == Err::<Raw, Error>(e),
                Ok(b) => match first_bad(indexes@, b.family[0].records.len()) {
                    Some(i) => r == Err::<Raw, Error>(
                        Error::ToneOutOfRange { index: i, count: b.family[0].records.len() as usize },
                    ),
                    None => pick_outcome(r, b, indexes@),
                },
            },
{
    if indexes.len() == 0 {
        return Err(Error::NoTones);
    }
    let bank = ToneBank::parse(raw)?;
    let ghost v = bank@;
    assert(load::bank_wf(v));
    assert(v.family[0] == bank.family@[0]@);
    let count = bank.family[0].records.len();
    let mut k: usize = 0;
    while k < indexes.len()
        invariant
            k <= indexes@.len(),
            v.family.len() >= 1,
            count == v.family[0].records.len(),
            forall|svd: Svd| #[trigger] parses_as(svd, raw@) ==> tone_bank(raw@, svd.areas@) == Ok::<load::ToneBankView, Error>(v),
            first_bad(indexes@.subrange(0, k as int), count as nat) is None,
            forall|j: int| 0 <= j < k ==> (#[trigger] indexes@[j]) < count,
        decreases indexes@.len() - k,
    {
        assert(indexes@.subrange(0, k + 1).drop_last() =~= indexes@.subrange(0, k as int));
        if indexes[k] >= count {
            proof {
                lemma_first_bad_prefix(indexes@, count as nat, k + 1);
            }
            return Err(Error::ToneOutOfRange { index: indexes[k], count });
        }
        k = k + 1;
    }
    assert(indexes@.subrange(0, k as int) =~= indexes@);
    pick(&bank, indexes)
}

/// What merging a bank that parses as `rb` into one that parses as `ra` gives: the first error
/// either parse meets, a refusal when the engines or tone record sizes differ, else the join.
pub open spec fn merge_outcome(r: Result<Raw>, ra: Result<ToneBankView>, rb: Result<ToneBankView>) -> bool {
    match ra {
        Err(e) => r == Err::<Raw, Error>(e),
        Ok(a) => match rb {
            Err(e) => r == Err::<Raw, Error>(e),
            Ok(b) => if a.row != b.row {
                r == Err::<Raw, Error>(
                    Error::EnginesDiffer { target: row_tag_bytes(a.row), source: row_tag_bytes(b.row) },
                )
            } else if a.family[0].size != b.family[0].size {
                r == Err::<Raw, Error>(Error::ToneSizesDiffer)
            } else {
                join_outcome(r, a, b)
            },
        },
    }
}

/// Append every tone of `source` to `target`, dropping tones `target` already holds.
pub fn merge_tones(target: &Raw, source: &Raw) -> (r: Result<Raw>)
    ensures
        envelope_error(target@) is Some ==> r is Err,
        envelope_error(source@) is Some ==> r is Err,
        forall|sa: Svd, sb: Svd|
            #![trigger parses_as(sa, target@), parses_as(sb, source@)]
            parses_as(sa, target@) && parses_as(sb, source@) ==> merge_outcome(
                r,
                tone_bank(target@, sa.areas@),
                tone_bank(source@, sb.areas@),
            ),
{
    let a = ToneBank::parse(target)?;
    let b = ToneBank::parse(source)?;
    if a.row != b.row {
        let ta = area_at(a.row);
        let tb = area_at(b.row);
        proof {
            lemma_row_bytes(ta, a.row as int);
            lemma_row_bytes(tb, b.row as int);
        }
        return Err(Error::EnginesDiffer { target: ta.tag, source: tb.tag });
    }
    assert(a@.family[0] == a.family@[0]@ && b@.family[0] == b.family@[0]@);
    if a.family[0].record_size != b.family[0].record_size {
        return Err(Error::ToneSizesDiffer);
    }
    join(&a, &b)
}

} // verus!
