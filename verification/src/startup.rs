//! The per-user autostart entry that launches the background daemon at
//! login. The program writes or removes the file.

use vstd::prelude::*;

verus! {

/// The Windows Startup-folder batch file for Nimbus at `exe`.
pub fn startup_script(exe: &str) -> (r: String)
    ensures
        r@ == "@echo off\r\nstart \"\" \""@ + exe@ + "\" --tray\r\n"@,
{
    let mut s = "@echo off\r\nstart \"\" \"".to_owned();
    s.append(exe);
    s.append("\" --tray\r\n");
    s
}

/// The XDG autostart desktop entry for Nimbus at `exe`.
pub fn autostart_entry(exe: &str) -> (r: String)
    ensures
        r@ == "[Desktop Entry]\nType=Application\nName=Nimbus (background sync)\nExec=\""@ + exe@
            + "\" --tray\nX-GNOME-Autostart-enabled=true\n"@,
{
    let mut s = "[Desktop Entry]\nType=Application\nName=Nimbus (background sync)\nExec=\"".to_owned();
    s.append(exe);
    s.append("\" --tray\nX-GNOME-Autostart-enabled=true\n");
    s
}

} // verus!
