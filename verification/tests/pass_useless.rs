use bf_tools::ins::{BfCode, BfIns};
use bf_tools::optimizer::pass_useless::PassUseless;

fn add(n: u8) -> BfIns {
    BfIns::Add(n)
}

fn sub(n: u8) -> BfIns {
    BfIns::Sub(n)
}

fn right(n: usize) -> BfIns {
    BfIns::PtrAdd(n)
}

fn left(n: usize) -> BfIns {
    BfIns::PtrSub(n)
}

fn lp(body: Vec<BfIns>) -> BfIns {
    BfIns::Loop(BfCode(body))
}

#[test]
fn pass_useless() {
    let mut is_changed = Default::default();
    // remove useless loops
    assert_eq!(
        PassUseless.optimize(
            BfCode(vec![
                lp(vec![sub(1)]),
                lp(vec![sub(1)]),
                lp(vec![sub(1)]),
                lp(vec![sub(1)]),
                lp(vec![sub(1)]),
            ]),
            &mut is_changed
        ),
        BfCode(vec![lp(vec![sub(1)])])
    );
    assert_eq!(
        PassUseless.optimize(
            BfCode(vec![
                lp(vec![right(1)]),
                lp(vec![add(1), sub(1), right(1), right(1), right(1), lp(vec![sub(1)])]),
            ]),
            &mut is_changed
        ),
        BfCode(vec![lp(vec![right(1)])])
    );
    assert_eq!(
        PassUseless.optimize(
            BfCode(vec![
                lp(vec![right(1)]),
                lp(vec![add(1), sub(1), right(1), right(1), right(1), lp(vec![sub(1)])]),
            ]),
            &mut is_changed
        ),
        BfCode(vec![lp(vec![right(1)])])
    );
    // grouping
    assert_eq!(
        PassUseless.optimize(
            BfCode(vec![add(1), add(1), add(1), sub(1), sub(1), sub(1)]),
            &mut is_changed
        ),
        BfCode(vec![])
    );
    assert_eq!(
        PassUseless.optimize(BfCode(vec![add(1), add(1), add(1), sub(1), sub(1)]), &mut is_changed),
        BfCode(vec![add(1)])
    );
    assert_eq!(
        PassUseless.optimize(BfCode(vec![add(1), add(1), sub(1), sub(1), sub(1)]), &mut is_changed),
        BfCode(vec![sub(1)])
    );
    assert_eq!(
        PassUseless.optimize(BfCode(vec![sub(1), sub(1), add(1), add(1), add(1)]), &mut is_changed),
        BfCode(vec![add(1)])
    );
    assert_eq!(
        PassUseless.optimize(BfCode(vec![right(1), right(1), left(1), left(1)]), &mut is_changed),
        BfCode(vec![])
    );
    assert_eq!(
        PassUseless.optimize(
            BfCode(vec![right(1), right(1), left(1), right(1), left(1)]),
            &mut is_changed
        ),
        BfCode(vec![right(1)])
    );
    // don't reorder:
    assert_eq!(
        PassUseless.optimize(
            BfCode(vec![
                right(1),
                add(1),
                left(1),
                sub(1),
                right(1),
                add(1),
                left(1),
                sub(1),
                right(1),
                add(1),
                left(1),
            ]),
            &mut is_changed
        ),
        BfCode(vec![
            right(1),
            add(1),
            left(1),
            sub(1),
            right(1),
            add(1),
            left(1),
            sub(1),
            right(1),
            add(1),
            left(1),
        ])
    );
}
