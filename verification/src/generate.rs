//! Dataset generation: random numeric strings for benchmark input, and a
//! deterministic construction path from an explicit sequence of integers.

use vstd::prelude::*;
use crate::numeric::{
    decimal_of, is_numeric_string, numeric_value, lemma_decimal_of_numeric, to_decimal_string,
};
use crate::strategies::{dataset_view, valid_dataset};
use rand::Rng;

verus! {

#[verifier::external_type_specification]
#[verifier::external_body]
pub struct ExThreadRng(rand::rngs::ThreadRng);

/// Relies on rand::thread_rng: a handle to the thread-local random generator.
#[verifier::external_body]
fn fresh_rng() -> rand::rngs::ThreadRng {
    rand::thread_rng()
}

/// Relies on rand::Rng::gen::<i32>: one uniformly drawn 32-bit integer.
/// Nothing is assumed of the drawn value.
#[verifier::external_body]
fn random_i32(rng: &mut rand::rngs::ThreadRng) -> i32 {
    rng.gen::<i32>()
}

/// Produces a dataset of exactly `len` numeric strings, each the decimal
/// representation of an independently drawn random 32-bit integer.
pub fn make_string_vec(len: usize) -> (r: Vec<String>)
    ensures
        r@.len() == len,
        valid_dataset(dataset_view(r@)),
{
    let mut rng = fresh_rng();
    let mut r: Vec<String> = Vec::new();
    let mut i: usize = 0;
    while i < len
        invariant
            i <= len,
            r@.len() == i,
            valid_dataset(dataset_view(r@)),
        decreases len - i,
    {
        let v = random_i32(&mut rng);
        let s = to_decimal_string(v);
        proof {
            lemma_decimal_of_numeric(v as int);
        }
        let ghost before = dataset_view(r@);
        r.push(s);
        proof {
            assert forall|k: int| 0 <= k < i + 1 implies is_numeric_string(
                #[trigger] dataset_view(r@)[k],
            ) by {
                if k < i {
                    assert(dataset_view(r@)[k] == before[k]);
                } else {
                    assert(dataset_view(r@)[k] == s@);
                }
            }
        }
        i = i + 1;
    }
    r
}

/// Deterministic construction path: converts an explicit sequence of integers
/// into a dataset, element for element, in order.
pub fn make_string_vec_from(values: &Vec<i32>) -> (r: Vec<String>)
    ensures
        r@.len() == values@.len(),
        forall|i: int|
            0 <= i < values@.len() ==> #[trigger] dataset_view(r@)[i] == decimal_of(
                values@[i] as int,
            ),
        forall|i: int|
            0 <= i < values@.len() ==> numeric_value(#[trigger] dataset_view(r@)[i])
                == values@[i] as int,
        valid_dataset(dataset_view(r@)),
{
    let mut r: Vec<String> = Vec::new();
    let mut i: usize = 0;
    while i < values.len()
        invariant
            i <= values@.len(),
            r@.len() == i,
            forall|k: int|
                0 <= k < i ==> #[trigger] dataset_view(r@)[k] == decimal_of(values@[k] as int),
            forall|k: int|
                0 <= k < i ==> numeric_value(#[trigger] dataset_view(r@)[k]) == values@[k] as int,
            valid_dataset(dataset_view(r@)),
        decreases values@.len() - i,
    {
        let v = values[i];
        let s = to_decimal_string(v);
        proof {
            lemma_decimal_of_numeric(v as int);
        }
        let ghost before = dataset_view(r@);
        r.push(s);
        proof {
            assert forall|k: int| 0 <= k < i + 1 implies #[trigger] dataset_view(r@)[k]
                == decimal_of(values@[k] as int) && numeric_value(dataset_view(r@)[k])
                == values@[k] as int && is_numeric_string(dataset_view(r@)[k]) by {
                if k < i {
                    assert(dataset_view(r@)[k] == before[k]);
                } else {
                    assert(dataset_view(r@)[k] == s@);
                }
            }
        }
        i = i + 1;
    }
    r
}

} // verus!
