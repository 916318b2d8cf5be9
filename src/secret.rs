//! Secrets for self-play, drawn from a seeded random source.
use crate::pins::{Pins, COLORS};
use random::Source;
use vstd::prelude::*;

verus! {

/// The random crate's default generator, carried through unopened.
#[verifier::external_type_specification]
#[verifier::external_body]
pub struct ExDefault(random::Default);

/// Relies on `random::Source::read::<u8>` for `random::Default`: one draw from the generator.
/// Any byte may come back.
#[verifier::external_body]
fn draw_byte(source: &mut random::Default) -> (r: u8) {
    source.read::<u8>()
}

/// The combination whose position `i` holds draw `i` reduced modulo `COLORS`.
pub fn secret_from_draws(a: u8, b: u8, c: u8, d: u8) -> (r: Pins)
    ensures
        r.wf(),
        r@ == seq![a % COLORS, b % COLORS, c % COLORS, d % COLORS],
{
    Pins::new(a % COLORS, b % COLORS, c % COLORS, d % COLORS)
}

/// Draws a secret: four bytes from `source`, each reduced modulo `COLORS`.
pub fn random_secret(source: &mut random::Default) -> (r: Pins)
    ensures
        r.wf(),
{
    let a = draw_byte(source);
    let b = draw_byte(source);
    let c = draw_byte(source);
    let d = draw_byte(source);
    secret_from_draws(a, b, c, d)
}

} // verus!
