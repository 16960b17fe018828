use pons::bidding::{Frequency, Trie};
use pons::contract::Call;
use pons::deal::Hand;

type Filter = Box<dyn Fn(Hand) -> Frequency + Send + Sync>;

#[test]
fn test_pass_everything() {
    let mut trie: Trie<Filter> = Trie::new();
    trie.insert(&[Call::Pass], Box::new(|_| Frequency(u8::MAX)));

    let filter = trie.get(&[Call::Pass]).expect("I just inserted this!");
    assert_eq!(filter(Hand::default()), Frequency(u8::MAX));
}
