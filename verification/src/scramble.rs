//! Drawing a scramble from a definition and laying it out as a puzzle log.
//!
//! A scramble is a stream of twists: the prefix of the definition, then the
//! twists of `depth` generators drawn from the pool, each draw on its own and
//! with every generator as likely as any other, then the postfix. A draw from
//! an empty pool picks nothing and adds nothing.
use crate::definition::{twists_view, Definition, DefinitionView, Generator, Twist};
use crate::number::{decimal, push_decimal};
use crate::wrap::{break_lines, line_texts, strings_view, wrap_lines};
use rand::rngs::ThreadRng;
use rand::seq::IndexedRandom;
use vstd::prelude::*;

verus! {

/// The thread-local random number generator of `rand`. Nothing is known of
/// its state.
#[verifier::external_type_specification]
#[verifier::external_body]
pub struct ExThreadRng(rand::rngs::ThreadRng);

/// What one draw picked: the place of a generator in the pool, or nothing.
pub type Draw = Option<int>;

/// Whether `draw` can come out of a pool of `pool_len` generators: nothing
/// from an empty pool, a place within the pool otherwise.
pub open spec fn valid_draw(pool_len: nat, draw: Draw) -> bool {
    match draw {
        None => pool_len == 0,
        Some(k) => 0 <= k < pool_len,
    }
}

/// The twists that `draw` adds to the stream.
pub open spec fn drawn_twists(pool: Seq<Seq<Seq<char>>>, draw: Draw) -> Seq<Seq<char>> {
    match draw {
        None => Seq::empty(),
        Some(k) => pool[k],
    }
}

/// The middle of a scramble: the twists of every draw, in the order of the
/// draws.
pub open spec fn middle(pool: Seq<Seq<Seq<char>>>, draws: Seq<Draw>) -> Seq<Seq<char>>
    decreases draws.len(),
{
    if draws.len() == 0 {
        Seq::empty()
    } else {
        middle(pool, draws.drop_last()) + drawn_twists(pool, draws.last())
    }
}

/// Whether `draws` can be the draws of one scramble of `def`: there are
/// `depth` of them, and each can come out of the pool.
pub open spec fn valid_draws(def: DefinitionView, draws: Seq<Draw>) -> bool {
    &&& draws.len() == def.depth
    &&& forall|i: int|
        0 <= i < draws.len() ==> valid_draw(def.generators.len(), #[trigger] draws[i])
}

/// The scramble of `def` that the draws `draws` give.
pub open spec fn twist_stream(def: DefinitionView, draws: Seq<Draw>) -> Seq<Seq<char>> {
    def.prefix + middle(def.generators, draws) + def.postfix
}

/// The head of a puzzle log for a puzzle of dimension `d` with `n` layers.
pub open spec fn log_head(d: nat, n: nat) -> Seq<char> {
    "# Hyperspeedcube puzzle log\n---\nversion: 1\npuzzle:\n  Rubiks"@ + decimal(d)
        + "D:\n    layer_count: "@ + decimal(n) + "\nstate: 1\ntwists: >\n"@
}

/// The lines `lines`, each behind two spaces and closed by a line feed.
pub open spec fn indented(lines: Seq<Seq<char>>) -> Seq<char>
    decreases lines.len(),
{
    if lines.len() == 0 {
        Seq::empty()
    } else {
        indented(lines.drop_last()) + "  "@ + lines.last() + "\n"@
    }
}

/// The puzzle log that holds the scramble `stream`: the head, then the
/// stream wrapped and indented.
pub open spec fn puzzle_log(d: nat, n: nat, stream: Seq<Seq<char>>) -> Seq<char> {
    log_head(d, n) + indented(line_texts(break_lines(stream)))
}

/// One draw from the pool, by `rand`'s `IndexedRandom::choose` on the slice.
///
/// `choose` returns `None` for an empty slice and otherwise a reference to
/// the element at a place that it draws uniformly from the slice's range, so
/// the result is an element of the pool. Which one is left open: two calls
/// on the same pool may differ. The generator refills its seed from the
/// operating system now and then and panics if the system refuses; no
/// argument decides that.
#[verifier::external_body]
fn choose_generator<'a>(pool: &'a [Generator], rng: &mut ThreadRng) -> (picked: Option<
    &'a Generator,
>)
    ensures
        picked is None <==> pool@.len() == 0,
        picked matches Some(g) ==> exists|k: int| 0 <= k < pool@.len() && pool@[k] == *g,
{
    pool.choose(rng)
}

/// Appends a copy of each of `twists` to `stream`.
pub fn push_twists(stream: &mut Vec<Twist>, twists: &[Twist])
    ensures
        twists_view(final(stream)@) == twists_view(old(stream)@) + twists_view(twists@),
{
    let mut i: usize = 0;
    proof {
        assert(twists_view(stream@) =~= twists_view(old(stream)@) + twists_view(twists@.take(0)));
    }
    while i < twists.len()
        invariant
            i <= twists@.len(),
            twists_view(stream@) == twists_view(old(stream)@) + twists_view(
                twists@.take(i as int),
            ),
        decreases twists@.len() - i,
    {
        let ghost before = twists_view(stream@);
        stream.push(Twist(twists[i].0.clone()));
        proof {
            assert(twists_view(stream@) =~= before.push(twists@[i as int]@));
            assert(twists_view(twists@.take(i as int + 1)) =~= twists_view(
                twists@.take(i as int),
            ).push(twists@[i as int]@));
        }
        i += 1;
    }
    proof {
        assert(twists@.take(i as int) =~= twists@);
    }
}

/// Appends to `stream` what one draw picked: the twists of the generator, or
/// nothing if the draw picked nothing.
pub fn push_drawn(stream: &mut Vec<Twist>, picked: Option<&Generator>)
    ensures
        twists_view(final(stream)@) == twists_view(old(stream)@) + match picked {
            Some(g) => g@,
            None => Seq::empty(),
        },
{
    match picked {
        Some(g) => push_twists(stream, g.0.as_slice()),
        None => {
            assert(twists_view(stream@) + Seq::<Seq<char>>::empty() =~= twists_view(stream@));
        },
    }
}

/// Draws a scramble of `def`.
///
/// Which generators are drawn is up to `rng`; whatever they are, the stream
/// is the one that some valid sequence of draws gives.
pub fn sample_stream(def: &Definition, rng: &mut ThreadRng) -> (stream: Vec<Twist>)
    ensures
        exists|draws: Seq<Draw>| #[trigger]
            valid_draws(def@, draws) && twists_view(stream@) == twist_stream(def@, draws),
        def.depth == 0 || def.generators@.len() == 0 ==> twists_view(stream@) == def@.prefix
            + def@.postfix,
{
    let ghost pool = def@.generators;
    let mut stream: Vec<Twist> = Vec::new();
    push_twists(&mut stream, def.prefix.0.as_slice());
    let ghost mut draws: Seq<Draw> = Seq::empty();
    let mut i: u32 = 0;
    proof {
        assert(twists_view(stream@) =~= def@.prefix + middle(pool, draws));
    }
    while i < def.depth
        invariant
            i <= def.depth,
            pool == def@.generators,
            draws.len() == i,
            forall|j: int| 0 <= j < draws.len() ==> valid_draw(pool.len(), #[trigger] draws[j]),
            twists_view(stream@) == def@.prefix + middle(pool, draws),
        decreases def.depth - i,
    {
        let picked = choose_generator(def.generators.as_slice(), rng);
        let ghost draw: Draw = match picked {
            Some(g) => Some(
                choose|k: int| 0 <= k < def.generators@.len() && def.generators@[k] == *g,
            ),
            None => None,
        };
        let ghost before = draws;
        proof {
            draws = before.push(draw);
            assert(draws.drop_last() =~= before);
            assert(valid_draw(pool.len(), draw));
        }
        push_drawn(&mut stream, picked);
        proof {
            assert(twists_view(stream@) =~= def@.prefix + middle(pool, draws));
        }
        i += 1;
    }
    push_twists(&mut stream, def.postfix.0.as_slice());
    proof {
        assert(valid_draws(def@, draws));
        assert(twists_view(stream@) == twist_stream(def@, draws));
        if def.depth == 0 {
            lemma_depth_zero(def@, draws);
        } else if def.generators@.len() == 0 {
            lemma_empty_pool(def@, draws);
        }
    }
    stream
}

/// Lays the scramble `stream` out as the puzzle log of a puzzle of dimension
/// `d` with `n` layers.
pub fn render(d: u8, n: u8, stream: &[Twist]) -> (log: String)
    ensures
        log@ == puzzle_log(d as nat, n as nat, twists_view(stream@)),
{
    let mut log = "# Hyperspeedcube puzzle log\n---\nversion: 1\npuzzle:\n  Rubiks".to_owned();
    push_decimal(&mut log, d as u32);
    log.append("D:\n    layer_count: ");
    push_decimal(&mut log, n as u32);
    log.append("\nstate: 1\ntwists: >\n");
    let lines = wrap_lines(stream);
    let ghost head = log_head(d as nat, n as nat);
    let ghost texts = strings_view(lines@);
    let mut i: usize = 0;
    proof {
        assert(log@ =~= head + indented(texts.take(0)));
    }
    while i < lines.len()
        invariant
            i <= lines@.len(),
            texts == strings_view(lines@),
            log@ == head + indented(texts.take(i as int)),
        decreases lines@.len() - i,
    {
        proof {
            assert(texts.take(i as int + 1).drop_last() =~= texts.take(i as int));
            assert(texts.take(i as int + 1).last() == lines@[i as int]@);
        }
        log.append("  ");
        log.append(lines[i].as_str());
        log.append("\n");
        proof {
            assert(log@ =~= head + indented(texts.take(i as int + 1)));
        }
        i += 1;
    }
    proof {
        assert(texts.take(i as int) =~= texts);
    }
    log
}

/// Draws a scramble of `def` and lays it out as a puzzle log.
///
/// The log is that of the stream which some valid sequence of draws gives;
/// with no draws to make, or nothing to draw from, it is the log of the
/// prefix followed by the postfix.
pub fn generate(def: &Definition, rng: &mut ThreadRng) -> (log: String)
    ensures
        exists|draws: Seq<Draw>| #[trigger]
            valid_draws(def@, draws) && log@ == puzzle_log(
                def@.d,
                def@.n,
                twist_stream(def@, draws),
            ),
        def.depth == 0 || def.generators@.len() == 0 ==> log@ == puzzle_log(
            def@.d,
            def@.n,
            def@.prefix + def@.postfix,
        ),
{
    let stream = sample_stream(def, rng);
    render(def.d, def.n, stream.as_slice())
}

/// The number of twists that the draws `draws` add, draw by draw.
pub open spec fn drawn_count(pool: Seq<Seq<Seq<char>>>, draws: Seq<Draw>) -> nat
    decreases draws.len(),
{
    if draws.len() == 0 {
        0
    } else {
        drawn_count(pool, draws.drop_last()) + drawn_twists(pool, draws.last()).len()
    }
}

/// With no draws to make, the scramble is the prefix followed by the
/// postfix, whatever the pool holds.
pub proof fn lemma_depth_zero(def: DefinitionView, draws: Seq<Draw>)
    requires
        valid_draws(def, draws),
        def.depth == 0,
    ensures
        twist_stream(def, draws) == def.prefix + def.postfix,
{
    assert(def.prefix + middle(def.generators, draws) + def.postfix =~= def.prefix + def.postfix);
}

/// Draws from an empty pool add nothing to the middle.
pub proof fn lemma_empty_pool_middle(pool: Seq<Seq<Seq<char>>>, draws: Seq<Draw>)
    requires
        pool.len() == 0,
        forall|i: int| 0 <= i < draws.len() ==> valid_draw(pool.len(), #[trigger] draws[i]),
    ensures
        middle(pool, draws) == Seq::<Seq<char>>::empty(),
    decreases draws.len(),
{
    if draws.len() > 0 {
        assert(valid_draw(pool.len(), draws[draws.len() - 1]));
        lemma_empty_pool_middle(pool, draws.drop_last());
        assert(middle(pool, draws) =~= Seq::<Seq<char>>::empty());
    }
}

/// With an empty pool, the scramble is the prefix followed by the postfix,
/// however many draws are made.
pub proof fn lemma_empty_pool(def: DefinitionView, draws: Seq<Draw>)
    requires
        valid_draws(def, draws),
        def.generators.len() == 0,
    ensures
        twist_stream(def, draws) == def.prefix + def.postfix,
{
    lemma_empty_pool_middle(def.generators, draws);
    assert(def.prefix + middle(def.generators, draws) + def.postfix =~= def.prefix + def.postfix);
}

/// The middle of a scramble has as many twists as the drawn generators have
/// together, and the scramble has those and the twists of prefix and postfix.
pub proof fn lemma_stream_len(def: DefinitionView, draws: Seq<Draw>)
    ensures
        middle(def.generators, draws).len() == drawn_count(def.generators, draws),
        twist_stream(def, draws).len() == def.prefix.len() + drawn_count(def.generators, draws)
            + def.postfix.len(),
    decreases draws.len(),
{
    if draws.len() > 0 {
        lemma_stream_len(def, draws.drop_last());
    }
}

/// A draw from the pool of a well-formed definition adds no twist only if
/// the pool is empty.
pub proof fn lemma_draw_adds_twists(def: DefinitionView, draws: Seq<Draw>, i: int)
    requires
        def.well_formed(),
        valid_draws(def, draws),
        0 <= i < draws.len(),
    ensures
        drawn_twists(def.generators, draws[i]).len() == 0 <==> def.generators.len() == 0,
{
    assert(valid_draw(def.generators.len(), draws[i]));
    if let Some(k) = draws[i] {
        assert(def.generators[k].len() > 0);
    }
}

} // verus!
