use rbitcoin_store::host::{
    mem_available_from_darwin_vm, mem_available_from_meminfo, sh_merge_workers,
    sh_workers_capped_by_free_ram, sh_workers_for_free_ram,
};
use rbitcoin_store::io_session_pool::{pool_workers, PoolDone, PoolJob, PoolQueue};

#[test]
fn sh_workers_cap_one_per_1_5_gib_free() {
    const G: u64 = 1 << 30;
    let one_half = 3 * G / 2;
    assert_eq!(sh_workers_for_free_ram(8, 0), 1);
    assert_eq!(sh_workers_for_free_ram(8, G), 1);
    assert_eq!(sh_workers_for_free_ram(8, one_half), 1);
    assert_eq!(sh_workers_for_free_ram(8, one_half.saturating_sub(1)), 1);
    assert_eq!(sh_workers_for_free_ram(8, 3 * G), 2);
    assert_eq!(sh_workers_for_free_ram(8, 9 * G / 2), 3);
    assert_eq!(sh_workers_for_free_ram(4, 15 * G), 4);
    assert_eq!(sh_workers_for_free_ram(16, 15 * G), 10);
    assert_eq!(sh_workers_for_free_ram(0, 15 * G), 1);
}

#[test]
fn mem_available_parses_proc_meminfo() {
    let text = "MemTotal:       16384000 kB\nMemFree:         1000000 kB\nMemAvailable:    3145728 kB\nBuffers:          200000 kB\n";
    assert_eq!(
        mem_available_from_meminfo(text.as_bytes()),
        Some(3145728 * 1024)
    );
    assert_eq!(mem_available_from_meminfo(b"MemTotal: 1 kB\n"), None);
}

#[test]
fn darwin_vm_pages_count_as_free_ram() {
    assert_eq!(mem_available_from_darwin_vm(0, 10, 10), None);
    assert_eq!(mem_available_from_darwin_vm(4096, 0, 0), Some(0));
    assert_eq!(mem_available_from_darwin_vm(4096, 1, 0), Some(4096));
    assert_eq!(mem_available_from_darwin_vm(16384, 2, 2), Some(4 * 16384));
}

#[test]
fn sh_merge_workers_env_overrides_ram_cap() {
    assert_eq!(sh_merge_workers(Some(7), 2, Some(0)), 7);
}

#[test]
fn without_a_setting_the_ram_decides() {
    assert_eq!(sh_merge_workers(None, 8, Some(3 << 30)), 2);
    assert_eq!(sh_merge_workers(None, 3, None), 1);
    assert_eq!(sh_workers_capped_by_free_ram(8, Some(9 << 29)), 3);
    assert_eq!(sh_merge_workers(Some(1000), 3, None), 256);
}

#[test]
fn pool_carries_jobs_out_in_order() {
    let mut q = PoolQueue::open();
    let job = |user_data: u64, len: usize| PoolJob {
        handle: 3,
        offset: 0,
        len,
        user_data,
        write: false,
    };
    assert!(q.push(job(1, 8)));
    assert!(q.push(job(2, 8)));
    assert!(!q.push(job(3, 0)), "a job without bytes is not queued");
    assert!(q.wait_one_cqe());
    assert_eq!(q.take().unwrap().user_data, 1);
    assert_eq!(q.take().unwrap().user_data, 2);
    assert!(q.take().is_none());
    assert!(!q.idle());
    q.finish(2, 8);
    assert!(!q.wait_one_cqe());
    q.finish(1, -5);
    assert!(q.idle());
    let done = q.harvest_ready();
    assert_eq!(
        done,
        vec![
            PoolDone { user_data: 2, res: 8 },
            PoolDone { user_data: 1, res: -5 }
        ]
    );
    assert!(q.harvest_ready().is_empty());
    q.push(job(4, 1));
    q.close();
    assert!(q.take().is_none());
    assert_eq!(pool_workers(0), 1);
    assert_eq!(pool_workers(99), 16);
}
