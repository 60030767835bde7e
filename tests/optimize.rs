use optimizing_bf::optimize::{
    fold_adjacent_constants, optimize_zeroing_loops, perform_all, strip_dead_loops,
};
use optimizing_bf::syntax::BFSyntax;
use optimizing_bf::tokens::tokenize;

use BFSyntax::{Assign, Dec, Inc, Left, Loop, Read, Right, Root, Write};

fn build(source: &str) -> BFSyntax {
    BFSyntax::build(&tokenize(source)).unwrap()
}

#[test]
fn zeroing_program_reduces_to_single_assign() {
    let program = build("++[-]+");
    assert_eq!(program, Root(vec![Inc(1), Inc(1), Loop(vec![Dec(1)]), Inc(1)]));
    assert_eq!(perform_all(program), Root(vec![Assign(1)]));
}

#[test]
fn coalescing_sums_opposite_increments() {
    assert_eq!(
        fold_adjacent_constants(Root(vec![Inc(1), Inc(1), Dec(1)])),
        Root(vec![Inc(1)])
    );
}

#[test]
fn coalescing_sums_opposite_moves() {
    assert_eq!(
        fold_adjacent_constants(Root(vec![Right(3), Left(5)])),
        Root(vec![Left(2)])
    );
}

#[test]
fn coalescing_cancels_equal_counts() {
    assert_eq!(fold_adjacent_constants(Root(vec![Inc(4), Dec(4)])), Root(vec![]));
    assert_eq!(
        fold_adjacent_constants(Root(vec![Right(1), Inc(1), Dec(1), Right(1)])),
        Root(vec![Right(2)])
    );
}

#[test]
fn coalescing_wraps_cell_counts() {
    assert_eq!(
        fold_adjacent_constants(Root(vec![Inc(200), Inc(100)])),
        Root(vec![Inc(44)])
    );
}

#[test]
fn coalescing_folds_into_assign() {
    assert_eq!(
        fold_adjacent_constants(Root(vec![Assign(0), Dec(1), Inc(3)])),
        Root(vec![Assign(2)])
    );
    assert_eq!(
        fold_adjacent_constants(Root(vec![Inc(3), Right(1), Dec(2), Assign(7), Write])),
        Root(vec![Inc(3), Right(1), Assign(7), Write])
    );
}

#[test]
fn coalescing_drops_write_before_read() {
    assert_eq!(
        fold_adjacent_constants(Root(vec![Right(2), Inc(3), Read, Inc(1), Write])),
        Root(vec![Right(2), Read, Inc(1), Write])
    );
}

#[test]
fn coalescing_does_not_cross_loops() {
    assert_eq!(
        fold_adjacent_constants(Root(vec![
            Inc(1),
            Loop(vec![Dec(1), Dec(1), Left(1)]),
            Inc(1)
        ])),
        Root(vec![Inc(1), Loop(vec![Dec(2), Left(1)]), Inc(1)])
    );
}

#[test]
fn dead_loops_are_dropped() {
    assert_eq!(
        strip_dead_loops(build("[-][+]+[.][,]+[>[<][>]]")),
        Root(vec![
            Inc(1),
            Loop(vec![Write]),
            Inc(1),
            Loop(vec![Right(1), Loop(vec![Left(1)])])
        ])
    );
    assert_eq!(
        strip_dead_loops(build("+[.][,]")),
        Root(vec![Inc(1), Loop(vec![Write])])
    );
}

#[test]
fn zeroing_loops_become_assign() {
    assert_eq!(
        optimize_zeroing_loops(build("+[>[-]<[--]-]")),
        Root(vec![
            Inc(1),
            Loop(vec![Right(1), Assign(0), Left(1), Loop(vec![Dec(1), Dec(1)]), Dec(1)])
        ])
    );
}

#[test]
fn passes_are_idempotent_on_example() {
    let program = build("+[-][>]>++<-[>+<-]<,.");
    let stripped = strip_dead_loops(build("+[-][>]>++<-[>+<-]<,."));
    assert_eq!(strip_dead_loops(strip_dead_loops(program)), stripped);
    let zeroed = optimize_zeroing_loops(build("+[-][>]>++<-[>+<-]<,."));
    assert_eq!(
        optimize_zeroing_loops(optimize_zeroing_loops(build("+[-][>]>++<-[>+<-]<,."))),
        zeroed
    );
    let folded = fold_adjacent_constants(build("+[-][>]>++<-[>+<-]<,."));
    assert_eq!(
        fold_adjacent_constants(fold_adjacent_constants(build("+[-][>]>++<-[>+<-]<,."))),
        folded
    );
}
