use proc_mounts::{MountInfo, MountList};

const SAMPLE: &str = r#"sysfs /sys sysfs rw,nosuid,nodev,noexec,relatime 0 0
proc /proc proc rw,nosuid,nodev,noexec,relatime 0 0
udev /dev devtmpfs rw,nosuid,relatime,size=16420480k,nr_inodes=4105120,mode=755 0 0
tmpfs /run tmpfs rw,nosuid,noexec,relatime,size=3291052k,mode=755 0 0
/dev/sda2 / ext4 rw,noatime,errors=remount-ro,data=ordered 0 0
fusectl /sys/fs/fuse/connections fusectl rw,relatime 0 0
/dev/sda1 /boot/efi vfat rw,relatime,fmask=0077,dmask=0077,codepage=437,iocharset=iso8859-1,shortname=mixed,errors=remount-ro 0 0
/dev/sda6 /mnt/data ext4 rw,noatime,data=ordered 0 0"#;

#[test]
fn mounts() {
    let lines: Vec<&str> = SAMPLE.lines().collect();
    let mounts = MountList::parse_from(&lines).unwrap();

    assert_eq!(
        mounts.get_mount_by_source(b"/dev/sda1").unwrap(),
        &MountInfo {
            source: b"/dev/sda1".to_vec(),
            dest: b"/boot/efi".to_vec(),
            fstype: "vfat".into(),
            options: vec![
                "rw".into(),
                "relatime".into(),
                "fmask=0077".into(),
                "dmask=0077".into(),
                "codepage=437".into(),
                "iocharset=iso8859-1".into(),
                "shortname=mixed".into(),
                "errors=remount-ro".into(),
            ],
            dump: 0,
            pass: 0,
        }
    );

    let path: &[u8] = b"/";
    assert_eq!(
        mounts
            .destination_starts_with(path)
            .iter()
            .map(|m| m.dest.clone())
            .collect::<Vec<_>>(),
        {
            let mut vec: Vec<Vec<u8>> = Vec::new();
            vec.push(b"/sys".to_vec());
            vec.push(b"/proc".to_vec());
            vec.push(b"/dev".to_vec());
            vec.push(b"/run".to_vec());
            vec.push(b"/".to_vec());
            vec.push(b"/sys/fs/fuse/connections".to_vec());
            vec.push(b"/boot/efi".to_vec());
            vec.push(b"/mnt/data".to_vec());
            vec
        }
    );
}
