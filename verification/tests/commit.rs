use ord::chain::Block;
use ord::chain::BlockHash;
use ord::chain::Transaction;
use ord::chain::TxId;
use ord::chain::TxOut;
use ord::commit::Action;
use ord::commit::Event;
use ord::commit::Fatal;
use ord::commit::Manager;
use ord::commit::Phase;
use ord::commit::Policy;
use ord::index::Cursor;
use ord::index::Index;
use ord::issuance::Schedule;

fn h(n: u128) -> BlockHash {
    BlockHash { high: 3, low: n }
}

fn b(n: u128, parent: u128) -> Block {
    Block {
        hash: h(n),
        parent: h(parent),
        transactions: vec![Transaction {
            txid: TxId { high: 9, low: n },
            inputs: vec![],
            outputs: vec![TxOut { value: 1, payload: None }],
            witness: vec![],
        }],
    }
}

fn policy() -> Policy {
    Policy { max_retries: 2, base_delay: 10 }
}

fn fresh() -> (Manager, Index) {
    let index = Index::new(Schedule::new(50, 2).unwrap());
    let manager = Manager::resume(&index, policy());
    (manager, index)
}

fn at_height_two() -> (Manager, Index) {
    let mut index = Index::new(Schedule::new(50, 2).unwrap());
    assert_eq!(index.index_block(&b(100, 0)), Ok(()));
    assert_eq!(index.index_block(&b(101, 100)), Ok(()));
    assert_eq!(index.index_block(&b(102, 101)), Ok(()));
    let manager = Manager::resume(&index, policy());
    (manager, index)
}

#[test]
fn manager_resumes_where_the_index_stands() {
    let (manager, _) = fresh();
    assert_eq!(manager, Manager { phase: Phase::Idle, failures: 0, delay: 10, policy: policy() });
    let (manager, _) = at_height_two();
    assert_eq!(manager.phase, Phase::Committed(2));
}

#[test]
fn idle_manager_fetches_the_first_block() {
    let (mut manager, mut index) = fresh();
    assert_eq!(manager.step(&mut index, &Event::Tick), Action::Fetch(0));
    assert_eq!(manager.phase, Phase::Indexing(0));
    assert_eq!(manager.step(&mut index, &Event::Tick), Action::Fetch(0));
    assert_eq!(manager.phase, Phase::Indexing(0));
}

#[test]
fn block_is_committed_and_the_tip_is_compared_next() {
    let (mut manager, mut index) = fresh();
    manager.step(&mut index, &Event::Tick);
    assert_eq!(manager.step(&mut index, &Event::Block(b(100, 0))), Action::AskHash(0));
    assert_eq!(manager.phase, Phase::Committed(0));
    assert_eq!(index.tip(), Some(Cursor { height: 0, hash: h(100) }));
    let same = Event::Hash { height: 0, hash: Some(h(100)) };
    assert_eq!(manager.step(&mut index, &same), Action::Fetch(1));
    assert_eq!(manager.phase, Phase::Indexing(1));
    assert_eq!(manager.step(&mut index, &Event::Block(b(101, 100))), Action::AskHash(1));
    assert_eq!(manager.phase, Phase::Committed(1));
    assert_eq!(index.tip(), Some(Cursor { height: 1, hash: h(101) }));
}

#[test]
fn missing_block_is_waited_for() {
    let (mut manager, mut index) = at_height_two();
    let same = Event::Hash { height: 2, hash: Some(h(102)) };
    assert_eq!(manager.step(&mut index, &same), Action::Fetch(3));
    assert_eq!(manager.step(&mut index, &Event::NotFound), Action::Wait(10));
    assert_eq!(manager.phase, Phase::Committed(2));
    assert_eq!(manager.failures, 0);
    assert_eq!(manager.step(&mut index, &Event::Tick), Action::AskHash(2));
    assert_eq!(index.tip(), Some(Cursor { height: 2, hash: h(102) }));
}

#[test]
fn failures_are_retried_with_doubled_delay_and_then_halt() {
    let (mut manager, mut index) = at_height_two();
    assert_eq!(manager.step(&mut index, &Event::Failed), Action::Wait(10));
    assert_eq!((manager.failures, manager.delay), (1, 20));
    assert_eq!(manager.step(&mut index, &Event::Tick), Action::AskHash(2));
    assert_eq!(manager.step(&mut index, &Event::Failed), Action::Wait(20));
    assert_eq!((manager.failures, manager.delay), (2, 40));
    assert_eq!(manager.step(&mut index, &Event::Failed), Action::Halt(Fatal::Upstream));
    assert_eq!(manager.phase, Phase::Committed(2));
    assert_eq!(index.tip(), Some(Cursor { height: 2, hash: h(102) }));
}

#[test]
fn answer_forgets_the_failures() {
    let (mut manager, mut index) = at_height_two();
    manager.step(&mut index, &Event::Failed);
    manager.step(&mut index, &Event::Failed);
    let same = Event::Hash { height: 2, hash: Some(h(102)) };
    assert_eq!(manager.step(&mut index, &same), Action::Fetch(3));
    assert_eq!((manager.failures, manager.delay), (0, 10));
    assert_eq!(manager.step(&mut index, &Event::Failed), Action::Wait(10));
    assert_eq!(manager.phase, Phase::Committed(2));
}

#[test]
fn failed_fetch_falls_back_to_the_last_commit() {
    let (mut manager, mut index) = fresh();
    manager.step(&mut index, &Event::Tick);
    assert_eq!(manager.step(&mut index, &Event::Failed), Action::Wait(10));
    assert_eq!(manager.phase, Phase::Idle);
    assert_eq!(manager.step(&mut index, &Event::Tick), Action::Fetch(0));
}

#[test]
fn delay_stops_at_the_longest() {
    let (_, mut index) = fresh();
    let mut manager = Manager {
        phase: Phase::Idle,
        failures: 0,
        delay: u64::MAX / 2 + 1,
        policy: Policy { max_retries: 9, base_delay: 1 },
    };
    assert_eq!(manager.step(&mut index, &Event::Failed), Action::Wait(u64::MAX / 2 + 1));
    assert_eq!(manager.delay, u64::MAX);
    assert_eq!(manager.step(&mut index, &Event::Failed), Action::Wait(u64::MAX));
    assert_eq!(manager.delay, u64::MAX);
}

#[test]
fn divergence_is_traced_back_to_the_fork() {
    let (mut manager, mut index) = at_height_two();
    let other = Event::Hash { height: 2, hash: Some(h(902)) };
    assert_eq!(manager.step(&mut index, &other), Action::AskHash(1));
    assert_eq!(manager.phase, Phase::RollingBack(2, 1));
    assert_eq!(index.tip(), Some(Cursor { height: 2, hash: h(102) }));
    let other = Event::Hash { height: 1, hash: Some(h(901)) };
    assert_eq!(manager.step(&mut index, &other), Action::AskHash(0));
    assert_eq!(manager.phase, Phase::RollingBack(2, 0));
    let same = Event::Hash { height: 0, hash: Some(h(100)) };
    assert_eq!(manager.step(&mut index, &same), Action::Fetch(1));
    assert_eq!(manager.phase, Phase::Indexing(1));
    assert_eq!(index.tip(), Some(Cursor { height: 0, hash: h(100) }));
    assert_eq!(manager.step(&mut index, &Event::Block(b(901, 100))), Action::AskHash(1));
    assert_eq!(index.tip(), Some(Cursor { height: 1, hash: h(901) }));
}

#[test]
fn divergence_from_the_first_block_undoes_everything() {
    let (mut manager, mut index) = at_height_two();
    manager.step(&mut index, &Event::Hash { height: 2, hash: None });
    manager.step(&mut index, &Event::Hash { height: 1, hash: Some(h(901)) });
    let other = Event::Hash { height: 0, hash: Some(h(900)) };
    assert_eq!(manager.step(&mut index, &other), Action::Fetch(0));
    assert_eq!(manager.phase, Phase::Indexing(0));
    assert_eq!(index.tip(), None);
    assert_eq!(index.store().len(), 0);
}

#[test]
fn block_that_does_not_follow_the_tip_marks_a_divergence() {
    let (mut manager, mut index) = at_height_two();
    manager.step(&mut index, &Event::Hash { height: 2, hash: Some(h(102)) });
    assert_eq!(manager.phase, Phase::Indexing(3));
    assert_eq!(manager.step(&mut index, &Event::Block(b(903, 902))), Action::AskHash(1));
    assert_eq!(manager.phase, Phase::RollingBack(2, 1));
    assert_eq!(index.tip(), Some(Cursor { height: 2, hash: h(102) }));
    let same = Event::Hash { height: 1, hash: Some(h(101)) };
    assert_eq!(manager.step(&mut index, &same), Action::Fetch(2));
    assert_eq!(index.tip(), Some(Cursor { height: 1, hash: h(101) }));
}

#[test]
fn answer_that_was_not_asked_for_is_asked_again() {
    let (mut manager, mut index) = at_height_two();
    assert_eq!(manager.step(&mut index, &Event::Block(b(103, 102))), Action::AskHash(2));
    assert_eq!(manager.step(&mut index, &Event::NotFound), Action::AskHash(2));
    let wrong = Event::Hash { height: 1, hash: Some(h(101)) };
    assert_eq!(manager.step(&mut index, &wrong), Action::AskHash(2));
    assert_eq!(manager.phase, Phase::Committed(2));
    assert_eq!(index.tip(), Some(Cursor { height: 2, hash: h(102) }));
    manager.step(&mut index, &Event::Hash { height: 2, hash: Some(h(102)) });
    let early = Event::Hash { height: 3, hash: Some(h(103)) };
    assert_eq!(manager.step(&mut index, &early), Action::Fetch(3));
    assert_eq!(manager.phase, Phase::Indexing(3));
}
