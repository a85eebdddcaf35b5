use spacebuild::batch::{env_batches, MAX_ENV_BATCH};

#[test]
fn env_of_120_bodies_gives_50_50_20_in_order() {
    let env: Vec<u32> = (0..120).collect();
    let batches = env_batches(env.clone());
    let sizes: Vec<usize> = batches.iter().map(|b| b.len()).collect();
    assert_eq!(sizes, vec![50, 50, 20]);
    let joined: Vec<u32> = batches.into_iter().flatten().collect();
    assert_eq!(joined, env);
}

#[test]
fn empty_env_gives_one_empty_batch() {
    let batches = env_batches(Vec::<u32>::new());
    assert_eq!(batches, vec![Vec::<u32>::new()]);
}

#[test]
fn env_of_exactly_one_batch_is_not_followed_by_an_empty_one() {
    let batches = env_batches((0..50u32).collect::<Vec<_>>());
    assert_eq!(batches.len(), 1);
    assert_eq!(batches[0].len(), MAX_ENV_BATCH);
    let batches = env_batches((0..100u32).collect::<Vec<_>>());
    assert_eq!(batches.len(), 2);
}

#[test]
fn env_of_51_bodies_gives_two_batches() {
    let batches = env_batches((0..51u32).collect::<Vec<_>>());
    assert_eq!(batches.len(), 2);
    assert_eq!(batches[1], vec![50]);
}
