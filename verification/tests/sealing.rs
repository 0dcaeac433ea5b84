use graph_walk::restricted::CanUseCannotImplement;
use graph_walk::restricted::CanUseCannotImplementExceptWhenClonable;

#[derive(Clone)]
struct Token {
    id: u32,
}

impl CanUseCannotImplementExceptWhenClonable for Token {}

fn read_marked<M: CanUseCannotImplementExceptWhenClonable>(marked: &M, read: fn(&M) -> u32) -> u32 {
    read(marked)
}

#[allow(dead_code)]
fn count_sealed<M: CanUseCannotImplement>(sealed: &[M]) -> usize {
    sealed.len()
}

#[test]
fn clonable_type_can_implement_the_clone_sealed_trait() {
    let token = Token { id: 9 };
    assert_eq!(read_marked(&token, |token| token.id), 9);
    assert_eq!(read_marked(&token.clone(), |token| token.id + 1), 10);
}

#[test]
fn clone_sealed_trait_serves_as_a_bound_for_several_types() {
    #[derive(Clone)]
    struct Other(u32);
    impl CanUseCannotImplementExceptWhenClonable for Other {}
    assert_eq!(read_marked(&Other(4), |other| other.0), 4);
    assert_eq!(read_marked(&Token { id: 1 }, |token| token.id), 1);
}
